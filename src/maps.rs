//! The two hash tables of the cache, kept in `hashbrown` maps.
//!
//! Each table is a private field of a struct of this module; Verus sees a
//! table only through the name of what it holds.
use vstd::prelude::*;

verus! {

/// Table from a cache key to the arena slot of its entry.
#[verifier::external_body]
pub struct KeyIndex {
    table: hashbrown::HashMap<u64, usize>,
}

/// What a `KeyIndex` holds: key to slot.
pub uninterp spec fn key_slots(m: KeyIndex) -> Map<u64, usize>;

/// Table from a bucket id to the number of live entries in that bucket.
#[verifier::external_body]
pub struct BucketCounts {
    table: hashbrown::HashMap<u32, u32>,
}

/// What a `BucketCounts` holds: bucket id to count.
pub uninterp spec fn bucket_counts(m: BucketCounts) -> Map<u32, u32>;

impl KeyIndex {
    /// Relies on hashbrown::HashMap::with_capacity: the new map is empty.
    /// It panics when the table for `capacity` keys would need more than
    /// `isize::MAX` bytes; the bound below stays clear of that.
    #[verifier::external_body]
    pub(crate) fn with_capacity(capacity: usize) -> (r: KeyIndex)
        requires
            capacity <= isize::MAX as usize / 64,
        ensures
            key_slots(r) =~= Map::empty(),
    {
        KeyIndex { table: hashbrown::HashMap::with_capacity(capacity) }
    }

    /// Relies on hashbrown::HashMap::get: the slot stored under `k`, if any.
    #[verifier::external_body]
    pub(crate) fn get(&self, k: u64) -> (r: Option<usize>)
        ensures
            r == (if key_slots(*self).contains_key(k) {
                Some(key_slots(*self)[k])
            } else {
                None
            }),
    {
        self.table.get(&k).copied()
    }

    /// Relies on hashbrown::HashMap::insert: `k` maps to `slot` afterwards,
    /// every other key keeps its slot.
    #[verifier::external_body]
    pub(crate) fn insert(&mut self, k: u64, slot: usize)
        ensures
            key_slots(*final(self)) == key_slots(*old(self)).insert(k, slot),
    {
        self.table.insert(k, slot);
    }

    /// Relies on hashbrown::HashMap::remove: `k` is gone afterwards and its
    /// slot is returned.
    #[verifier::external_body]
    pub(crate) fn remove(&mut self, k: u64) -> (r: Option<usize>)
        ensures
            key_slots(*final(self)) == key_slots(*old(self)).remove(k),
            r == (if key_slots(*old(self)).contains_key(k) {
                Some(key_slots(*old(self))[k])
            } else {
                None
            }),
    {
        self.table.remove(&k)
    }

    /// Relies on hashbrown::HashMap::len: the number of keys stored.
    #[verifier::external_body]
    pub(crate) fn len(&self) -> (r: usize)
        ensures
            r == key_slots(*self).len(),
    {
        self.table.len()
    }

    /// Relies on hashbrown::HashMap::shrink_to_fit: the contents stay.
    #[verifier::external_body]
    pub(crate) fn shrink_to_fit(&mut self)
        ensures
            key_slots(*final(self)) == key_slots(*old(self)),
    {
        self.table.shrink_to_fit();
    }
}

impl BucketCounts {
    /// Relies on hashbrown::HashMap::new: the new map is empty.
    #[verifier::external_body]
    pub(crate) fn new() -> (r: BucketCounts)
        ensures
            bucket_counts(r) =~= Map::empty(),
    {
        BucketCounts { table: hashbrown::HashMap::new() }
    }

    /// Relies on hashbrown::HashMap::get: the count stored under `b`, if any.
    #[verifier::external_body]
    pub(crate) fn get(&self, b: u32) -> (r: Option<u32>)
        ensures
            r == (if bucket_counts(*self).contains_key(b) {
                Some(bucket_counts(*self)[b])
            } else {
                None
            }),
    {
        self.table.get(&b).copied()
    }

    /// Relies on hashbrown::HashMap::insert: `b` maps to `count` afterwards,
    /// every other bucket keeps its count.
    #[verifier::external_body]
    pub(crate) fn insert(&mut self, b: u32, count: u32)
        ensures
            bucket_counts(*final(self)) == bucket_counts(*old(self)).insert(b, count),
    {
        self.table.insert(b, count);
    }

    /// Relies on hashbrown::HashMap::remove: `b` is gone afterwards.
    #[verifier::external_body]
    pub(crate) fn remove(&mut self, b: u32)
        ensures
            bucket_counts(*final(self)) == bucket_counts(*old(self)).remove(b),
    {
        self.table.remove(&b);
    }

    /// Relies on hashbrown::HashMap::len: the number of buckets stored.
    #[verifier::external_body]
    pub(crate) fn len(&self) -> (r: usize)
        ensures
            r == bucket_counts(*self).len(),
    {
        self.table.len()
    }

    /// Relies on hashbrown::HashMap::iter: every stored pair once, in an
    /// order that the table decides.
    #[verifier::external_body]
    pub(crate) fn pairs(&self) -> (r: Vec<(u32, u32)>)
        ensures
            r@.len() == bucket_counts(*self).len(),
            forall|i: int|
                0 <= i < r@.len() ==> #[trigger] bucket_counts(*self).contains_key(r@[i].0)
                    && bucket_counts(*self)[r@[i].0] == r@[i].1,
            forall|b: u32|
                #[trigger] bucket_counts(*self).contains_key(b) ==> exists|i: int|
                    0 <= i < r@.len() && r@[i].0 == b,
    {
        self.table.iter().map(|(b, c)| (*b, *c)).collect()
    }

    /// Relies on hashbrown::HashMap::shrink_to_fit: the contents stay.
    #[verifier::external_body]
    pub(crate) fn shrink_to_fit(&mut self)
        ensures
            bucket_counts(*final(self)) == bucket_counts(*old(self)),
    {
        self.table.shrink_to_fit();
    }
}

} // verus!
