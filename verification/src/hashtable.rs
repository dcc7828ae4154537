//! The capability contract every hash table implementation exposes:
//! construct with a sizing hint, insert, lookup (mutable), erase, and
//! rehash into another implementation.

use vstd::prelude::*;

verus! {

/// A fixed-capacity map from keys to values.
///
/// The abstract state of a table is `contents()`, the key-value relation it
/// currently holds. `inv()` is the structural well-formedness that `new`
/// establishes and every operation preserves. `capacity()` is fixed at
/// construction and never changes. `spare()` counts cells that have never
/// been used; while it is positive an insert of an absent key is within the
/// defined behavior (`may_insert`), and so is an insert of a present key as
/// long as no erasure has left a marker behind (`no_tombstones`).
pub trait SimpleHashtable: Sized {
    /// The key-value relation the table currently holds.
    spec fn contents(&self) -> Map<u64, u64>;

    /// Structural well-formedness, preserved by every operation.
    spec fn inv(&self) -> bool;

    /// The effective capacity, fixed at construction.
    spec fn capacity(&self) -> nat;

    /// How many never-used cells remain.
    spec fn spare(&self) -> nat;

    /// True when no erasure marker is present (trivially true for
    /// strategies that do not use them).
    spec fn no_tombstones(&self) -> bool;

    /// Whether an insert of `key` is within the strategy's defined behavior.
    spec fn may_insert(&self, key: u64) -> bool;

    /// The capacity that construction with hint `size` yields.
    spec fn new_capacity(size: usize) -> nat;

    /// A table with a never-used cell accepts any absent key.
    proof fn lemma_fresh_key_may_insert(&self, key: u64)
        requires
            self.inv(),
            self.spare() > 0,
            !self.contents().contains_key(key),
        ensures
            self.may_insert(key);

    /// A table without erasure markers accepts any present key.
    proof fn lemma_present_key_may_insert(&self, key: u64)
        requires
            self.inv(),
            self.no_tombstones(),
            self.contents().contains_key(key),
        ensures
            self.may_insert(key);

    /// A well-formed table holds finitely many entries.
    proof fn lemma_contents_finite(&self)
        requires
            self.inv(),
        ensures
            self.contents().dom().finite();

    /// Constructs a new hashtable sized to accommodate at least `size`
    /// entries without growth.
    fn new(size: usize) -> (r: Self)
        requires
            size <= usize::MAX / 2 + 1,
        ensures
            r.inv(),
            r.contents() == Map::<u64, u64>::empty(),
            r.capacity() == Self::new_capacity(size),
            r.capacity() >= size,
            r.spare() >= size,
            r.spare() > 0,
            r.no_tombstones();

    /// Insert `key` with `value` into the table. If `key` was already
    /// present, return the previously associated value as `Some`, otherwise
    /// return `None`.
    fn insert(&mut self, key: u64, value: u64) -> (r: Option<u64>)
        requires
            old(self).inv(),
            old(self).may_insert(key),
        ensures
            final(self).inv(),
            final(self).contents() == old(self).contents().insert(key, value),
            r == (if old(self).contents().contains_key(key) {
                Some(old(self).contents()[key])
            } else {
                None::<u64>
            }),
            final(self).capacity() == old(self).capacity(),
            final(self).spare() + 1 >= old(self).spare(),
            old(self).contents().contains_key(key) ==> final(self).spare() == old(self).spare(),
            old(self).no_tombstones() ==> final(self).no_tombstones();

    /// Obtain a mutable reference to the value associated with `key`, if it
    /// exists. A mutation through the reference is visible to subsequent
    /// lookups.
    fn lookup(&mut self, key: &u64) -> (r: Option<&mut u64>)
        requires
            old(self).inv(),
        ensures
            final(self).inv(),
            final(self).capacity() == old(self).capacity(),
            final(self).spare() == old(self).spare(),
            old(self).no_tombstones() ==> final(self).no_tombstones(),
            !old(self).contents().contains_key(*key) ==> r.is_none() && final(self).contents()
                == old(self).contents(),
            old(self).contents().contains_key(*key) ==> r.is_some() && *r.unwrap() == old(
                self,
            ).contents()[*key] && final(self).contents() == old(self).contents().insert(
                *key,
                *final(r.unwrap()),
            );

    /// Erase the entry associated with `key` and return `true` if it
    /// existed, otherwise return `false`.
    fn erase(&mut self, key: &u64) -> (r: bool)
        requires
            old(self).inv(),
        ensures
            final(self).inv(),
            r == old(self).contents().contains_key(*key),
            final(self).contents() == old(self).contents().remove(*key),
            final(self).capacity() == old(self).capacity(),
            final(self).spare() == old(self).spare(),
            !r && old(self).no_tombstones() ==> final(self).no_tombstones();

    /// All live entries of the table, as key-value pairs with pairwise
    /// distinct keys.
    fn entries(&self) -> (es: Vec<(u64, u64)>)
        requires
            self.inv(),
        ensures
            forall|i: int|
                0 <= i < es@.len() ==> self.contents().contains_key(#[trigger] es@[i].0)
                    && self.contents()[es@[i].0] == es@[i].1,
            forall|k: u64|
                self.contents().contains_key(k) ==> exists|i: int|
                    0 <= i < es@.len() && #[trigger] es@[i].0 == k,
            forall|i: int, j: int| 0 <= i < j < es@.len() ==> es@[i].0 != es@[j].0;
}

/// Round-trip: an insert of an absent key reports the absence, and a lookup
/// after it finds the inserted value.
pub proof fn lemma_round_trip<T: SimpleHashtable>(
    pre: T,
    post: T,
    key: u64,
    value: u64,
    r: Option<u64>,
)
    requires
        pre.inv(),
        !pre.contents().contains_key(key),
        post.contents() == pre.contents().insert(key, value),
        r == (if pre.contents().contains_key(key) {
            Some(pre.contents()[key])
        } else {
            None::<u64>
        }),
    ensures
        r.is_none(),
        post.contents().contains_key(key),
        post.contents()[key] == value,
{
}

/// Overwrite: an insert of a present key returns the prior value, and the
/// table's logical size does not change.
pub proof fn lemma_overwrite<T: SimpleHashtable>(
    pre: T,
    post: T,
    key: u64,
    value: u64,
    r: Option<u64>,
)
    requires
        pre.inv(),
        pre.contents().contains_key(key),
        post.contents() == pre.contents().insert(key, value),
        r == (if pre.contents().contains_key(key) {
            Some(pre.contents()[key])
        } else {
            None::<u64>
        }),
    ensures
        r == Some(pre.contents()[key]),
        post.contents()[key] == value,
        post.contents().dom().len() == pre.contents().dom().len(),
{
    assert(post.contents().dom() =~= pre.contents().dom());
}

/// Erasing a present key twice returns `true` then `false`, and a lookup on
/// that key afterwards finds nothing.
pub proof fn lemma_erase_twice<T: SimpleHashtable>(
    pre: T,
    mid: T,
    post: T,
    key: u64,
    r1: bool,
    r2: bool,
)
    requires
        pre.inv(),
        pre.contents().contains_key(key),
        r1 == pre.contents().contains_key(key),
        mid.contents() == pre.contents().remove(key),
        r2 == mid.contents().contains_key(key),
        post.contents() == mid.contents().remove(key),
    ensures
        r1,
        !r2,
        post.contents() == mid.contents(),
        !post.contents().contains_key(key),
{
    assert(mid.contents().remove(key) =~= mid.contents());
}

/// Rehash fidelity: rehashed into a freshly constructed target, the target
/// holds exactly the source's entries, so each present key is found with the
/// same value on both sides. The source is borrowed immutably by `rehash`
/// and therefore never mutated.
pub proof fn lemma_rehash_fidelity<T: SimpleHashtable, U: SimpleHashtable>(src: T, target: U)
    requires
        target.contents() == Map::<u64, u64>::empty().union_prefer_right(src.contents()),
    ensures
        target.contents() == src.contents(),
        forall|k: u64|
            src.contents().contains_key(k) ==> target.contents().contains_key(k)
                && target.contents()[k] == src.contents()[k],
{
    assert(target.contents() =~= src.contents());
}


/// The rehash capability, separate from the base contract only so that its
/// target may itself be any base implementation.
pub trait Rehash: SimpleHashtable {
    /// Rehash this table into `map`: every live entry of `self` is inserted
    /// into `map`, without mutating `self`. Entries of `map` whose keys do
    /// not occur in `self` are kept.
    fn rehash<T: SimpleHashtable>(&self, map: &mut T)
        requires
            self.inv(),
            self.contents().dom().finite(),
            old(map).inv(),
            old(map).no_tombstones(),
            old(map).spare() >= self.contents().dom().len(),
        ensures
            final(map).inv(),
            final(map).contents() == old(map).contents().union_prefer_right(self.contents()),
            final(map).capacity() == old(map).capacity(),
            final(map).no_tombstones();
}

/// Shared body of every `rehash`: insert the listed entries, which carry
/// exactly the pairs of the ghost map `m`, into `map`.
pub(crate) fn insert_entries<T: SimpleHashtable>(
    es: &Vec<(u64, u64)>,
    Ghost(m): Ghost<Map<u64, u64>>,
    map: &mut T,
)
    requires
        m.dom().finite(),
        forall|i: int|
            0 <= i < es@.len() ==> m.contains_key(#[trigger] es@[i].0) && m[es@[i].0] == es@[i].1,
        forall|k: u64|
            m.contains_key(k) ==> exists|i: int| 0 <= i < es@.len() && #[trigger] es@[i].0 == k,
        forall|i: int, j: int| 0 <= i < j < es@.len() ==> es@[i].0 != es@[j].0,
        old(map).inv(),
        old(map).no_tombstones(),
        old(map).spare() >= m.dom().len(),
    ensures
        final(map).inv(),
        final(map).no_tombstones(),
        final(map).contents() == old(map).contents().union_prefer_right(m),
        final(map).capacity() == old(map).capacity(),
{
    proof {
        map.lemma_contents_finite();
        let diff = m.dom().difference(map.contents().dom());
        assert(diff.subset_of(m.dom()));
        vstd::set_lib::lemma_len_subset(diff, m.dom());
    }
    let mut t: usize = 0;
    while t < es.len()
        invariant
            forall|i: int|
                0 <= i < es@.len() ==> m.contains_key(#[trigger] es@[i].0) && m[es@[i].0]
                    == es@[i].1,
            forall|i: int, j: int| 0 <= i < j < es@.len() ==> es@[i].0 != es@[j].0,
            0 <= t <= es@.len(),
            map.inv(),
            map.no_tombstones(),
            map.capacity() == old(map).capacity(),
            m.dom().finite(),
            map.contents().dom().finite(),
            forall|k: u64|
                #[trigger] map.contents().contains_key(k) <==> old(map).contents().contains_key(k)
                    || exists|i: int| 0 <= i < t && #[trigger] es@[i].0 == k,
            forall|i: int|
                0 <= i < t ==> map.contents()[#[trigger] es@[i].0] == m[es@[i].0],
            forall|k: u64|
                old(map).contents().contains_key(k) && !(exists|i: int|
                    0 <= i < t && #[trigger] es@[i].0 == k) ==> map.contents()[k] == old(
                    map,
                ).contents()[k],
            map.spare() >= m.dom().difference(map.contents().dom()).len(),
        decreases es@.len() - t,
    {
        let (k, v) = es[t];
        proof {
            let diff = m.dom().difference(map.contents().dom());
            vstd::set_lib::lemma_len_subset(diff, m.dom());
            if map.contents().contains_key(k) {
                map.lemma_present_key_may_insert(k);
            } else {
                assert(diff.contains(k));
                assert(diff.remove(k).len() + 1 == diff.len());
                map.lemma_fresh_key_may_insert(k);
            }
        }
        let ghost pre = map.contents();
        let _ = map.insert(k, v);
        proof {
            let diff_pre = m.dom().difference(pre.dom());
            let diff_post = m.dom().difference(map.contents().dom());
            if pre.contains_key(k) {
                assert(diff_post =~= diff_pre);
            } else {
                assert(diff_post =~= diff_pre.remove(k));
            }
            map.lemma_contents_finite();
        }
        t += 1;
    }
    proof {
        assert(map.contents() =~= old(map).contents().union_prefer_right(m)) by {
            assert forall|k: u64| #[trigger] m.contains_key(k) implies map.contents().contains_key(
                k,
            ) && map.contents()[k] == m[k] by {
                let i = choose|i: int| 0 <= i < es@.len() && #[trigger] es@[i].0 == k;
                assert(es@[i].0 == k);
            }
        }
    }
}

} // verus!
