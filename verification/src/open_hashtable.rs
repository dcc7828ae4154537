//! An open-addressing hash table: a fixed-length power-of-two array of
//! slots, linear probing with wrap-around, and tombstones on erase so that
//! probe chains for other keys stay unbroken.

use vstd::prelude::*;
use crate::hash::{fx_hash, hash_of};
use crate::hashtable::{insert_entries, Rehash, SimpleHashtable};
use crate::pow2::{is_pow2, next_pow2, next_power_of_two};

verus! {

/// One slot of the flat array: never used, erased (the marker keeps probe
/// chains for other keys unbroken), or live.
#[derive(Clone, Copy)]
enum Slot {
    Empty,
    Tombstone,
    Occupied { key: u64, value: u64 },
}

spec fn s_occ(s: Slot) -> bool {
    s is Occupied
}

spec fn s_emp(s: Slot) -> bool {
    s is Empty
}

spec fn s_tom(s: Slot) -> bool {
    s is Tombstone
}

spec fn s_key(s: Slot) -> u64 {
    match s {
        Slot::Occupied { key, .. } => key,
        _ => 0,
    }
}

spec fn s_val(s: Slot) -> u64 {
    match s {
        Slot::Occupied { value, .. } => value,
        _ => 0,
    }
}

/// The position reached after `j` probe steps from home index `h` in a table
/// of `n` slots.
spec fn probe(h: int, j: int, n: int) -> int {
    if h + j < n {
        h + j
    } else {
        h + j - n
    }
}

/// The number of probe steps from home index `h` to position `p`.
spec fn dist(h: int, p: int, n: int) -> int {
    if p >= h {
        p - h
    } else {
        p + n - h
    }
}

/// The home index of a key under the given mask.
spec fn home_of(k: u64, mask: u64) -> int {
    (hash_of(k) & mask) as int
}

proof fn lemma_and_le(x: u64, y: u64)
    ensures
        x & y <= y,
{
    assert(x & y <= y) by (bit_vector);
}

/// The key-value relation held by a slot sequence.
spec fn slots_map(s: Seq<Slot>) -> Map<u64, u64>
    decreases s.len(),
{
    if s.len() == 0 {
        Map::empty()
    } else {
        let m = slots_map(s.drop_last());
        if s.last() is Occupied {
            m.insert(s_key(s.last()), s_val(s.last()))
        } else {
            m
        }
    }
}

proof fn lemma_slots_map_finite(s: Seq<Slot>)
    ensures
        slots_map(s).dom().finite(),
    decreases s.len(),
{
    if s.len() > 0 {
        lemma_slots_map_finite(s.drop_last());
    }
}

proof fn lemma_slots_map_contains(s: Seq<Slot>, k: u64)
    ensures
        slots_map(s).contains_key(k) <==> exists|p: int|
            0 <= p < s.len() && s_occ(#[trigger] s[p]) && s_key(s[p]) == k,
    decreases s.len(),
{
    if s.len() > 0 {
        lemma_slots_map_contains(s.drop_last(), k);
        let n = s.len() as int;
        if slots_map(s).contains_key(k) {
            if s.last() is Occupied && s_key(s.last()) == k {
                assert(s_occ(s[n - 1]) && s_key(s[n - 1]) == k);
            } else {
                let p = choose|p: int|
                    0 <= p < s.drop_last().len() && s_occ(#[trigger] s.drop_last()[p]) && s_key(
                        s.drop_last()[p],
                    ) == k;
                assert(s_occ(s[p]) && s_key(s[p]) == k);
            }
        }
        if exists|p: int| 0 <= p < s.len() && s_occ(#[trigger] s[p]) && s_key(s[p]) == k {
            let p = choose|p: int| 0 <= p < s.len() && s_occ(#[trigger] s[p]) && s_key(s[p]) == k;
            if p == n - 1 {
                assert(slots_map(s).contains_key(k));
            } else {
                assert(s_occ(s.drop_last()[p]) && s_key(s.drop_last()[p]) == k);
                assert(slots_map(s.drop_last()).contains_key(k));
            }
        }
    }
}

/// At most one live slot per key.
spec fn unique_keys(s: Seq<Slot>) -> bool {
    forall|p: int, q: int|
        0 <= p < q < s.len() && s_occ(#[trigger] s[p]) && s_occ(#[trigger] s[q]) ==> s_key(s[p])
            != s_key(s[q])
}

proof fn lemma_unique_drop_last(s: Seq<Slot>)
    requires
        unique_keys(s),
        s.len() > 0,
    ensures
        unique_keys(s.drop_last()),
{
    assert forall|p: int, q: int|
        0 <= p < q < s.drop_last().len() && s_occ(#[trigger] s.drop_last()[p]) && s_occ(
            #[trigger] s.drop_last()[q],
        ) implies s_key(s.drop_last()[p]) != s_key(s.drop_last()[q]) by {
        assert(s.drop_last()[p] == s[p] && s.drop_last()[q] == s[q]);
    }
}

proof fn lemma_slots_map_at(s: Seq<Slot>, p: int)
    requires
        unique_keys(s),
        0 <= p < s.len(),
        s_occ(s[p]),
    ensures
        slots_map(s).contains_key(s_key(s[p])),
        slots_map(s)[s_key(s[p])] == s_val(s[p]),
    decreases s.len(),
{
    let n = s.len() as int;
    if p < n - 1 {
        lemma_unique_drop_last(s);
        assert(s.drop_last()[p] == s[p]);
        lemma_slots_map_at(s.drop_last(), p);
        if s.last() is Occupied {
            assert(s_key(s[n - 1]) != s_key(s[p]));
        }
    }
}

proof fn lemma_slots_map_update_same_v(s: Seq<Slot>, i: int, k: u64, v: u64)
    requires
        unique_keys(s),
        0 <= i < s.len(),
        s_occ(s[i]),
        s_key(s[i]) == k,
    ensures
        slots_map(s.update(i, Slot::Occupied { key: k, value: v })) == slots_map(s).insert(k, v),
    decreases s.len(),
{
    let n = s.len() as int;
    let s2 = s.update(i, Slot::Occupied { key: k, value: v });
    if i == n - 1 {
        assert(s2.drop_last() =~= s.drop_last());
        assert(slots_map(s2) =~= slots_map(s).insert(k, v));
    } else {
        lemma_unique_drop_last(s);
        assert(s.drop_last()[i] == s[i]);
        lemma_slots_map_update_same_v(s.drop_last(), i, k, v);
        assert(s2.drop_last() =~= s.drop_last().update(i, Slot::Occupied { key: k, value: v }));
        assert(s2.last() == s.last());
        if s.last() is Occupied {
            assert(s_key(s[n - 1]) != k);
            assert(slots_map(s2) =~= slots_map(s).insert(k, v));
        } else {
            assert(slots_map(s2) =~= slots_map(s).insert(k, v));
        }
    }
}

/// Writing a live entry with key `k` over the slot that already holds `k`
/// updates the derived map at `k` alone, for any written value.
proof fn lemma_slots_map_update_same(s: Seq<Slot>, i: int, k: u64)
    requires
        unique_keys(s),
        0 <= i < s.len(),
        s_occ(s[i]),
        s_key(s[i]) == k,
    ensures
        forall|v: u64|
            slots_map(#[trigger] s.update(i, Slot::Occupied { key: k, value: v })) == slots_map(
                s,
            ).insert(k, v),
{
    assert forall|v: u64|
        slots_map(#[trigger] s.update(i, Slot::Occupied { key: k, value: v })) == slots_map(
            s,
        ).insert(k, v) by {
        lemma_slots_map_update_same_v(s, i, k, v);
    }
}

proof fn lemma_slots_map_update_new(s: Seq<Slot>, i: int, k: u64, v: u64)
    requires
        0 <= i < s.len(),
        !s_occ(s[i]),
        forall|p: int| 0 <= p < s.len() && s_occ(#[trigger] s[p]) ==> s_key(s[p]) != k,
    ensures
        slots_map(s.update(i, Slot::Occupied { key: k, value: v })) == slots_map(s).insert(k, v),
    decreases s.len(),
{
    let n = s.len() as int;
    let s2 = s.update(i, Slot::Occupied { key: k, value: v });
    if i == n - 1 {
        assert(s2.drop_last() =~= s.drop_last());
        assert(slots_map(s2) =~= slots_map(s).insert(k, v));
    } else {
        assert(s.drop_last()[i] == s[i]);
        assert(forall|p: int|
            0 <= p < s.drop_last().len() && s_occ(#[trigger] s.drop_last()[p]) ==> s_key(
                s.drop_last()[p],
            ) != k);
        lemma_slots_map_update_new(s.drop_last(), i, k, v);
        assert(s2.drop_last() =~= s.drop_last().update(i, Slot::Occupied { key: k, value: v }));
        assert(s2.last() == s.last());
        if s.last() is Occupied {
            assert(s_key(s[n - 1]) != k);
            assert(slots_map(s2) =~= slots_map(s).insert(k, v));
        } else {
            assert(slots_map(s2) =~= slots_map(s).insert(k, v));
        }
    }
}

proof fn lemma_slots_map_update_tomb(s: Seq<Slot>, i: int)
    requires
        unique_keys(s),
        0 <= i < s.len(),
        s_occ(s[i]),
    ensures
        slots_map(s.update(i, Slot::Tombstone)) == slots_map(s).remove(s_key(s[i])),
    decreases s.len(),
{
    let n = s.len() as int;
    let k = s_key(s[i]);
    let s2 = s.update(i, Slot::Tombstone);
    if i == n - 1 {
        assert(s2.drop_last() =~= s.drop_last());
        lemma_slots_map_contains(s.drop_last(), k);
        assert forall|p: int|
            0 <= p < s.drop_last().len() && s_occ(#[trigger] s.drop_last()[p]) implies s_key(
            s.drop_last()[p],
        ) != k by {
            assert(s.drop_last()[p] == s[p]);
        }
        assert(!slots_map(s.drop_last()).contains_key(k));
        assert(slots_map(s2) =~= slots_map(s).remove(k));
    } else {
        lemma_unique_drop_last(s);
        assert(s.drop_last()[i] == s[i]);
        lemma_slots_map_update_tomb(s.drop_last(), i);
        assert(s2.drop_last() =~= s.drop_last().update(i, Slot::Tombstone));
        assert(s2.last() == s.last());
        if s.last() is Occupied {
            assert(s_key(s[n - 1]) != k);
            assert(slots_map(s2) =~= slots_map(s).remove(k));
        } else {
            assert(slots_map(s2) =~= slots_map(s).remove(k));
        }
    }
}

/// How many never-used slots remain.
spec fn count_empty(s: Seq<Slot>) -> nat
    decreases s.len(),
{
    if s.len() == 0 {
        0
    } else {
        count_empty(s.drop_last()) + if s.last() is Empty {
            1nat
        } else {
            0nat
        }
    }
}

proof fn lemma_count_empty_update(s: Seq<Slot>, i: int, x: Slot)
    requires
        0 <= i < s.len(),
        !s_emp(x),
    ensures
        s_emp(s[i]) ==> count_empty(s.update(i, x)) + 1 == count_empty(s),
        !s_emp(s[i]) ==> count_empty(s.update(i, x)) == count_empty(s),
    decreases s.len(),
{
    let n = s.len() as int;
    let s2 = s.update(i, x);
    if i == n - 1 {
        assert(s2.drop_last() =~= s.drop_last());
    } else {
        lemma_count_empty_update(s.drop_last(), i, x);
        assert(s2.drop_last() =~= s.drop_last().update(i, x));
        assert(s2.last() == s.last());
    }
}

proof fn lemma_count_empty_pos(s: Seq<Slot>)
    requires
        count_empty(s) > 0,
    ensures
        exists|p: int| 0 <= p < s.len() && s_emp(#[trigger] s[p]),
    decreases s.len(),
{
    let n = s.len() as int;
    if s.last() is Empty {
        assert(s_emp(s[n - 1]));
    } else {
        lemma_count_empty_pos(s.drop_last());
        let p = choose|p: int| 0 <= p < s.drop_last().len() && s_emp(#[trigger] s.drop_last()[p]);
        assert(s_emp(s[p]));
    }
}

/// A probe scan for `key` stops an insert at offset `j`: the slot there is
/// never-used, erased, or holds `key` itself.
spec fn stops_insert(s: Seq<Slot>, mask: u64, k: u64, j: int) -> bool {
    let sl = s[probe(home_of(k, mask), j, s.len() as int)];
    s_emp(sl) || s_tom(sl) || (s_occ(sl) && s_key(sl) == k)
}

/// A probe scan for `key` stops a lookup at offset `j`: the slot there is
/// never-used or holds `key` itself.
spec fn stops_lookup(s: Seq<Slot>, mask: u64, k: u64, j: int) -> bool {
    let sl = s[probe(home_of(k, mask), j, s.len() as int)];
    s_emp(sl) || (s_occ(sl) && s_key(sl) == k)
}

/// Offset `j` is the first offset at which an insert scan for `k` stops.
spec fn first_insert_stop(s: Seq<Slot>, mask: u64, k: u64, j: int) -> bool {
    0 <= j < s.len() && stops_insert(s, mask, k, j) && forall|m: int|
        0 <= m < j ==> !stops_insert(s, mask, k, m)
}

/// Every slot sized by the mask; every live entry is reachable from its home
/// index without crossing a never-used slot; at most one live slot per key.
spec fn wf(s: Seq<Slot>, mask: u64) -> bool {
    &&& s.len() == mask as int + 1
    &&& is_pow2(s.len() as nat)
    &&& unique_keys(s)
    &&& forall|p: int, q: int|
        0 <= p < s.len() && 0 <= q < s.len() && s_occ(#[trigger] s[p]) && s_emp(#[trigger] s[q])
            ==> dist(home_of(s_key(s[p]), mask), p, s.len() as int) < dist(
            home_of(s_key(s[p]), mask),
            q,
            s.len() as int,
        )
}

/// If a stop exists somewhere at or after `j`, a first stop exists.
proof fn lemma_first_stop_exists(s: Seq<Slot>, mask: u64, k: u64, j: int)
    requires
        0 <= j < s.len(),
        stops_insert(s, mask, k, j),
    ensures
        exists|j0: int| #[trigger] first_insert_stop(s, mask, k, j0),
    decreases j,
{
    if forall|m: int| 0 <= m < j ==> !stops_insert(s, mask, k, m) {
        assert(first_insert_stop(s, mask, k, j));
    } else {
        let m = choose|m: int| 0 <= m < j && stops_insert(s, mask, k, m);
        lemma_first_stop_exists(s, mask, k, m);
    }
}

/// Overwriting the value of the live slot that holds `k` preserves
/// well-formedness, the never-used count, and the tombstone pattern, for any
/// written value.
proof fn lemma_wf_value_write(s: Seq<Slot>, mask: u64, i: int)
    requires
        wf(s, mask),
        0 <= i < s.len(),
        s_occ(s[i]),
    ensures
        forall|v: u64|
            {
                let s2 = #[trigger] s.update(i, Slot::Occupied { key: s_key(s[i]), value: v });
                wf(s2, mask) && count_empty(s2) == count_empty(s) && (forall|x: int|
                    0 <= x < s2.len() ==> s_tom(#[trigger] s2[x]) == s_tom(s[x]))
            },
{
    assert forall|v: u64|
        {
            let s2 = #[trigger] s.update(i, Slot::Occupied { key: s_key(s[i]), value: v });
            wf(s2, mask) && count_empty(s2) == count_empty(s) && (forall|x: int|
                0 <= x < s2.len() ==> s_tom(#[trigger] s2[x]) == s_tom(s[x]))
        } by {
        let s2 = s.update(i, Slot::Occupied { key: s_key(s[i]), value: v });
        assert(forall|x: int|
            0 <= x < s.len() ==> s_occ(#[trigger] s2[x]) == s_occ(s[x]) && s_key(s2[x]) == s_key(
                s[x],
            ) && s_emp(s2[x]) == s_emp(s[x]) && s_tom(s2[x]) == s_tom(s[x]));
        lemma_count_empty_update(s, i, Slot::Occupied { key: s_key(s[i]), value: v });
    }
}

/// Filling the slot where an insert scan for `k` first stopped (a never-used
/// or erased slot) keeps the table well-formed when `k` is absent.
proof fn lemma_wf_fill(s: Seq<Slot>, mask: u64, i: int, k: u64, v: u64, j: int)
    requires
        wf(s, mask),
        0 <= j < s.len(),
        i == probe(home_of(k, mask), j, s.len() as int),
        0 <= i < s.len(),
        !s_occ(s[i]),
        forall|m: int| 0 <= m < j ==> !stops_insert(s, mask, k, m),
        forall|p: int| 0 <= p < s.len() && s_occ(#[trigger] s[p]) ==> s_key(s[p]) != k,
    ensures
        wf(s.update(i, Slot::Occupied { key: k, value: v }), mask),
{
    let n = s.len() as int;
    let h = home_of(k, mask);
    let s2 = s.update(i, Slot::Occupied { key: k, value: v });
    lemma_and_le(hash_of(k), mask);
    assert(0 <= h < n);
    assert(dist(h, i, n) == j);
    assert forall|p: int, q: int|
        0 <= p < n && 0 <= q < n && s_occ(#[trigger] s2[p]) && s_emp(#[trigger] s2[q]) implies dist(
        home_of(s_key(s2[p]), mask),
        p,
        n,
    ) < dist(home_of(s_key(s2[p]), mask), q, n) by {
        assert(s_emp(s[q]));
        if p == i {
            let d = dist(h, q, n);
            assert(probe(h, d, n) == q);
            if d < j {
                assert(stops_insert(s, mask, k, d));
            }
            assert(d != j);
        } else {
            assert(s_occ(s[p]) && s_key(s2[p]) == s_key(s[p]));
        }
    }
    assert forall|p: int, q: int|
        0 <= p < q < n && s_occ(#[trigger] s2[p]) && s_occ(#[trigger] s2[q]) implies s_key(s2[p])
        != s_key(s2[q]) by {
        if p != i && q != i {
            assert(s2[p] == s[p] && s2[q] == s[q]);
        }
    }
}

/// Turning a live slot into a tombstone preserves well-formedness and the
/// never-used count.
proof fn lemma_wf_tomb(s: Seq<Slot>, mask: u64, i: int)
    requires
        wf(s, mask),
        0 <= i < s.len(),
        s_occ(s[i]),
    ensures
        wf(s.update(i, Slot::Tombstone), mask),
        count_empty(s.update(i, Slot::Tombstone)) == count_empty(s),
{
    let n = s.len() as int;
    let s2 = s.update(i, Slot::Tombstone);
    lemma_count_empty_update(s, i, Slot::Tombstone);
    assert forall|p: int, q: int|
        0 <= p < n && 0 <= q < n && s_occ(#[trigger] s2[p]) && s_emp(#[trigger] s2[q]) implies dist(
        home_of(s_key(s2[p]), mask),
        p,
        n,
    ) < dist(home_of(s_key(s2[p]), mask), q, n) by {
        assert(s2[p] == s[p] && s_emp(s[q]));
    }
    assert forall|p: int, q: int|
        0 <= p < q < n && s_occ(#[trigger] s2[p]) && s_occ(#[trigger] s2[q]) implies s_key(s2[p])
        != s_key(s2[q]) by {
        assert(s2[p] == s[p] && s2[q] == s[q]);
    }
}

/// A fixed-size flat array of slots; collisions resolved by linear probing
/// with wrap-around; erasures leave tombstones.
pub struct OpenHashtable {
    mask: u64,
    table: Vec<Slot>,
}

impl OpenHashtable {
    /// Scan for `key` with lookup semantics: the index of the live slot
    /// holding `key`, or `None` when a never-used slot (or a full wrap)
    /// proves `key` absent.
    fn find_index(&self, key: u64) -> (r: Option<usize>)
        requires
            wf(self.table@, self.mask),
        ensures
            match r {
                Some(i) => 0 <= i < self.table@.len() && s_occ(self.table@[i as int]) && s_key(
                    self.table@[i as int],
                ) == key && slots_map(self.table@).contains_key(key) && slots_map(self.table@)[key]
                    == s_val(self.table@[i as int]),
                None => !slots_map(self.table@).contains_key(key),
            },
    {
        let n = self.table.len();
        let h = fx_hash(key);
        proof {
            lemma_and_le(h, self.mask);
        }
        let mut idx: usize = (h & self.mask) as usize;
        let ghost hh = home_of(key, self.mask);
        let mut j: usize = 0;
        while j < n
            invariant
                wf(self.table@, self.mask),
                n == self.table@.len(),
                0 <= j <= n,
                0 <= hh < n,
                idx as int == probe(hh, j as int, n as int),
                hh == home_of(key, self.mask),
                forall|m: int| 0 <= m < j ==> !stops_lookup(self.table@, self.mask, key, m),
            decreases n - j,
        {
            match self.table[idx] {
                Slot::Empty => {
                    proof {
                        lemma_slots_map_contains(self.table@, key);
                        if slots_map(self.table@).contains_key(key) {
                            let p = choose|p: int|
                                0 <= p < self.table@.len() && s_occ(#[trigger] self.table@[p])
                                    && s_key(self.table@[p]) == key;
                            let d = dist(hh, p, n as int);
                            assert(s_emp(self.table@[idx as int]));
                            assert(d < dist(hh, idx as int, n as int));
                            assert(dist(hh, idx as int, n as int) == j as int);
                            assert(probe(hh, d, n as int) == p);
                            assert(stops_lookup(self.table@, self.mask, key, d));
                        }
                    }
                    return None;
                },
                Slot::Occupied { key: k2, value: _v } => {
                    if k2 == key {
                        proof {
                            lemma_slots_map_at(self.table@, idx as int);
                        }
                        return Some(idx);
                    }
                },
                Slot::Tombstone => {},
            }
            j += 1;
            idx += 1;
            if idx == n {
                idx = 0;
            }
        }
        proof {
            lemma_slots_map_contains(self.table@, key);
            if slots_map(self.table@).contains_key(key) {
                let p = choose|p: int|
                    0 <= p < self.table@.len() && s_occ(#[trigger] self.table@[p]) && s_key(
                        self.table@[p],
                    ) == key;
                let d = dist(hh, p, n as int);
                assert(probe(hh, d, n as int) == p);
                assert(stops_lookup(self.table@, self.mask, key, d));
            }
        }
        None
    }
}

impl SimpleHashtable for OpenHashtable {
    closed spec fn contents(&self) -> Map<u64, u64> {
        slots_map(self.table@)
    }

    closed spec fn inv(&self) -> bool {
        wf(self.table@, self.mask)
    }

    closed spec fn capacity(&self) -> nat {
        self.table@.len() as nat
    }

    closed spec fn spare(&self) -> nat {
        count_empty(self.table@)
    }

    closed spec fn no_tombstones(&self) -> bool {
        forall|p: int| 0 <= p < self.table@.len() ==> !s_tom(#[trigger] self.table@[p])
    }

    closed spec fn may_insert(&self, key: u64) -> bool {
        exists|j: int|
            #[trigger] first_insert_stop(self.table@, self.mask, key, j) && (s_tom(
                self.table@[probe(home_of(key, self.mask), j, self.table@.len() as int)],
            ) ==> !slots_map(self.table@).contains_key(key))
    }

    open spec fn new_capacity(size: usize) -> nat {
        next_pow2(size as nat)
    }

    proof fn lemma_fresh_key_may_insert(&self, key: u64) {
        let s = self.table@;
        let n = s.len() as int;
        lemma_count_empty_pos(s);
        let q = choose|p: int| 0 <= p < s.len() && s_emp(#[trigger] s[p]);
        lemma_and_le(hash_of(key), self.mask);
        let h = home_of(key, self.mask);
        let d = dist(h, q, n);
        assert(probe(h, d, n) == q);
        assert(stops_insert(s, self.mask, key, d));
        lemma_first_stop_exists(s, self.mask, key, d);
    }

    proof fn lemma_present_key_may_insert(&self, key: u64) {
        let s = self.table@;
        let n = s.len() as int;
        lemma_slots_map_contains(s, key);
        let p = choose|p: int| 0 <= p < s.len() && s_occ(#[trigger] s[p]) && s_key(s[p]) == key;
        lemma_and_le(hash_of(key), self.mask);
        let h = home_of(key, self.mask);
        let d = dist(h, p, n);
        assert(probe(h, d, n) == p);
        assert(stops_insert(s, self.mask, key, d));
        lemma_first_stop_exists(s, self.mask, key, d);
        let j0 = choose|j0: int| #[trigger] first_insert_stop(s, self.mask, key, j0);
        let i0 = probe(h, j0, n);
        if s_emp(s[i0]) {
            assert(dist(h, p, n) < dist(h, i0, n));
            assert(dist(h, i0, n) == j0);
            assert(!stops_insert(s, self.mask, key, d));
            assert(false);
        }
        assert(!s_tom(s[i0]));
    }

    proof fn lemma_contents_finite(&self) {
        lemma_slots_map_finite(self.table@);
    }

    fn new(size: usize) -> (r: Self) {
        let c = next_power_of_two(size);
        let mut table: Vec<Slot> = Vec::new();
        while table.len() < c
            invariant
                table@.len() <= c,
                forall|p: int| 0 <= p < table@.len() ==> s_emp(#[trigger] table@[p]),
                slots_map(table@) == Map::<u64, u64>::empty(),
                count_empty(table@) == table@.len(),
            decreases c - table@.len(),
        {
            let ghost pre = table@;
            table.push(Slot::Empty);
            proof {
                assert(table@.drop_last() =~= pre);
            }
        }
        OpenHashtable { mask: (c - 1) as u64, table }
    }

    fn insert(&mut self, key: u64, value: u64) -> (r: Option<u64>) {
        let n = self.table.len();
        let h = fx_hash(key);
        proof {
            lemma_and_le(h, self.mask);
        }
        let mut idx: usize = (h & self.mask) as usize;
        let ghost hh = home_of(key, self.mask);
        let mut j: usize = 0;
        while j < n
            invariant
                *self == *old(self),
                wf(self.table@, self.mask),
                old(self).may_insert(key),
                n == self.table@.len(),
                0 <= j <= n,
                0 <= hh < n,
                idx as int == probe(hh, j as int, n as int),
                hh == home_of(key, self.mask),
                forall|m: int| 0 <= m < j ==> !stops_insert(self.table@, self.mask, key, m),
            decreases n - j,
        {
            let sl = self.table[idx];
            match sl {
                Slot::Occupied { key: k2, value: v2 } => {
                    if k2 == key {
                        proof {
                            let s = self.table@;
                            lemma_slots_map_at(s, idx as int);
                            lemma_slots_map_update_same_v(s, idx as int, key, value);
                            lemma_wf_value_write(s, self.mask, idx as int);
                            assert(s.update(
                                idx as int,
                                Slot::Occupied { key: s_key(s[idx as int]), value },
                            ) == s.update(idx as int, Slot::Occupied { key, value }));
                        }
                        let slot_ref = &mut self.table[idx];
                        *slot_ref = Slot::Occupied { key, value };
                        return Some(v2);
                    }
                },
                Slot::Empty => {
                    proof {
                        let s = self.table@;
                        lemma_slots_map_contains(s, key);
                        assert forall|p: int|
                            0 <= p < s.len() && s_occ(#[trigger] s[p]) implies s_key(s[p])
                            != key by {
                            if s_key(s[p]) == key {
                                let d = dist(hh, p, n as int);
                                assert(probe(hh, d, n as int) == p);
                                assert(s_emp(s[idx as int]));
                                assert(d < dist(hh, idx as int, n as int));
                                assert(dist(hh, idx as int, n as int) == j as int);
                                assert(stops_insert(s, self.mask, key, d));
                            }
                        }
                        lemma_slots_map_update_new(s, idx as int, key, value);
                        lemma_wf_fill(s, self.mask, idx as int, key, value, j as int);
                        lemma_count_empty_update(s, idx as int, Slot::Occupied { key, value });
                    }
                    let slot_ref = &mut self.table[idx];
                    *slot_ref = Slot::Occupied { key, value };
                    return None;
                },
                Slot::Tombstone => {
                    proof {
                        let s = self.table@;
                        assert(first_insert_stop(s, self.mask, key, j as int));
                        let j0 = choose|j0: int|
                            #[trigger] first_insert_stop(s, self.mask, key, j0) && (s_tom(
                                s[probe(hh, j0, n as int)],
                            ) ==> !slots_map(s).contains_key(key));
                        if j0 < j as int {
                            assert(stops_insert(s, self.mask, key, j0));
                            assert(false);
                        }
                        if (j as int) < j0 {
                            assert(!stops_insert(s, self.mask, key, j as int));
                            assert(false);
                        }
                        assert(!slots_map(s).contains_key(key));
                        lemma_slots_map_contains(s, key);
                        lemma_slots_map_update_new(s, idx as int, key, value);
                        lemma_wf_fill(s, self.mask, idx as int, key, value, j as int);
                        lemma_count_empty_update(s, idx as int, Slot::Occupied { key, value });
                    }
                    let slot_ref = &mut self.table[idx];
                    *slot_ref = Slot::Occupied { key, value };
                    return None;
                },
            }
            j += 1;
            idx += 1;
            if idx == n {
                idx = 0;
            }
        }
        proof {
            let s = self.table@;
            let j0 = choose|j0: int|
                #[trigger] first_insert_stop(s, self.mask, key, j0) && (s_tom(
                    s[probe(hh, j0, n as int)],
                ) ==> !slots_map(s).contains_key(key));
            assert(!stops_insert(s, self.mask, key, j0));
            assert(false);
        }
        None
    }

    fn lookup(&mut self, key: &u64) -> (r: Option<&mut u64>) {
        let k = *key;
        let found = self.find_index(k);
        match found {
            None => None,
            Some(i) => {
                proof {
                    let s = self.table@;
                    assert(s_key(s[i as int]) == k);
                    lemma_slots_map_update_same(s, i as int, k);
                    lemma_wf_value_write(s, self.mask, i as int);
                }
                let slot_ref = &mut self.table[i];
                match slot_ref {
                    Slot::Occupied { value, .. } => Some(value),
                    _ => {
                        proof {
                            assert(false);
                        }
                        None
                    },
                }
            },
        }
    }

    fn erase(&mut self, key: &u64) -> (r: bool) {
        let found = self.find_index(*key);
        match found {
            None => {
                proof {
                    assert(slots_map(self.table@).remove(*key) =~= slots_map(self.table@));
                }
                false
            },
            Some(i) => {
                proof {
                    let s = self.table@;
                    lemma_slots_map_update_tomb(s, i as int);
                    lemma_wf_tomb(s, self.mask, i as int);
                }
                let slot_ref = &mut self.table[i];
                *slot_ref = Slot::Tombstone;
                true
            },
        }
    }

    fn entries(&self) -> (es: Vec<(u64, u64)>) {
        let ghost s = self.table@;
        let mut es: Vec<(u64, u64)> = Vec::new();
        let ghost mut qs: Seq<int> = Seq::empty();
        let mut p: usize = 0;
        while p < self.table.len()
            invariant
                wf(s, self.mask),
                s == self.table@,
                0 <= p <= s.len(),
                qs.len() == es@.len(),
                forall|i: int|
                    0 <= i < qs.len() ==> 0 <= #[trigger] qs[i] && qs[i] < p as int && s_occ(
                        s[qs[i]],
                    ) && s_key(s[qs[i]]) == es@[i].0 && s_val(s[qs[i]]) == es@[i].1,
                forall|i: int, j: int| 0 <= i < j < qs.len() ==> qs[i] < qs[j],
                forall|q: int|
                    0 <= q < p && s_occ(#[trigger] s[q]) ==> exists|i: int|
                        0 <= i < qs.len() && #[trigger] qs[i] == q,
            decreases s.len() - p,
        {
            let sl = self.table[p];
            match sl {
                Slot::Occupied { key, value } => {
                    let ghost qs_pre = qs;
                    es.push((key, value));
                    proof {
                        qs = qs.push(p as int);
                        assert forall|q: int|
                            0 <= q < p + 1 && s_occ(#[trigger] s[q]) implies exists|i: int|
                            0 <= i < qs.len() && #[trigger] qs[i] == q by {
                            if q < p {
                                let i = choose|i: int|
                                    0 <= i < qs_pre.len() && #[trigger] qs_pre[i] == q;
                                assert(qs[i] == q);
                            } else {
                                assert(qs[qs.len() - 1] == q);
                            }
                        }
                    }
                },
                _ => {},
            }
            p += 1;
        }
        proof {
            assert forall|i: int| 0 <= i < es@.len() implies slots_map(s).contains_key(
                #[trigger] es@[i].0,
            ) && slots_map(s)[es@[i].0] == es@[i].1 by {
                lemma_slots_map_at(s, qs[i]);
            }
            assert forall|k: u64| slots_map(s).contains_key(k) implies exists|i: int|
                0 <= i < es@.len() && #[trigger] es@[i].0 == k by {
                lemma_slots_map_contains(s, k);
                let q = choose|q: int|
                    0 <= q < s.len() && s_occ(#[trigger] s[q]) && s_key(s[q]) == k;
                let i = choose|i: int| 0 <= i < qs.len() && #[trigger] qs[i] == q;
                assert(es@[i].0 == k);
            }
            assert forall|i: int, j: int| 0 <= i < j < es@.len() implies es@[i].0 != es@[j].0 by {
                assert(qs[i] < qs[j] && s_occ(s[qs[i]]) && s_occ(s[qs[j]]));
            }
        }
        es
    }
}

impl Rehash for OpenHashtable {
    fn rehash<T: SimpleHashtable>(&self, map: &mut T) {
        let es = self.entries();
        insert_entries(&es, Ghost(self.contents()), map);
    }
}

} // verus!
