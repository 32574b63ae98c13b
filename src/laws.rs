//! Laws that relate several operations of the cache.
use vstd::prelude::*;
use crate::buckets::{distance, range_sum, BucketView};
use crate::indexed::{CacheView, IndexedLruCache};
use crate::region::{
    count, lemma_count_below, lemma_count_from_all, lemma_count_from_position, lemma_count_from_split,
    lemma_range_sum_counts, tracks, EntryView,
};

verus! {

/// Each region's counters add up to its size: the open bucket's count plus
/// the counts of the kept buckets from the least-recent entry's bucket on;
/// every kept bucket older than that holds zero, and so does every bucket
/// of an empty region.
pub proof fn lemma_bucket_sums<V>(c: &IndexedLruCache<V>)
    requires
        c.wf(),
    ensures
        c@.real_len > 0 ==> forall|j: u32|
            #[trigger] c@.real_buckets.counts.contains_key(j) && j < c@.real_lru_index()
                ==> c@.real_buckets.counts[j] == 0,
        c@.ghost_len() > 0 ==> forall|j: u32|
            #[trigger] c@.ghost_buckets.counts.contains_key(j) && j < c@.lru_index()
                ==> c@.ghost_buckets.counts[j] == 0,
        c@.real_len == 0 ==> c@.real_buckets.current == 0 && forall|j: u32|
            #[trigger] c@.real_buckets.counts.contains_key(j) ==> c@.real_buckets.counts[j] == 0,
        c@.ghost_len() == 0 ==> c@.ghost_buckets.current == 0 && forall|j: u32|
            #[trigger] c@.ghost_buckets.counts.contains_key(j) ==> c@.ghost_buckets.counts[j] == 0,
        c@.real_len > 0 ==> c@.real_buckets.current + range_sum(
            c@.real_buckets.counts,
            c@.real_lru_index() as int,
            c@.real_buckets.global as int,
        ) == c@.real_len,
        c@.ghost_len() > 0 ==> c@.ghost_buckets.current + range_sum(
            c@.ghost_buckets.counts,
            c@.lru_index() as int,
            c@.ghost_buckets.global as int,
        ) == c@.ghost_len(),
{
    c.lemma_invariants();
    let v = c@;
    if v.real_len > 0 {
        assert(v.real_part().last() == v.entries[v.real_len - 1]);
        lemma_region_sum(v.real_buckets, v.real_part());
    }
    if v.ghost_len() > 0 {
        assert(v.ghost_part().last() == v.entries.last());
        lemma_region_sum(v.ghost_buckets, v.ghost_part());
    }
    lemma_older_zero(v.real_buckets, v.real_part());
    lemma_older_zero(v.ghost_buckets, v.ghost_part());
}

proof fn lemma_older_zero<V>(b: BucketView, s: Seq<EntryView<V>>)
    requires
        tracks(b, s),
    ensures
        s.len() > 0 ==> forall|j: u32| #[trigger] b.counts.contains_key(j) && j < s.last().index ==> b.counts[j] == 0,
        s.len() == 0 ==> b.current == 0 && forall|j: u32| #[trigger] b.counts.contains_key(j) ==> b.counts[j] == 0,
{
    if s.len() > 0 {
        assert forall|i: int| 0 <= i < s.len() implies #[trigger] s[i].index >= s.last().index by {
            assert(s[i].index >= s[s.len() - 1].index);
        }
        assert forall|j: u32| #[trigger] b.counts.contains_key(j) && j < s.last().index implies b.counts[j] == 0 by {
            lemma_count_below(s, s.last().index, j);
        }
    }
}

proof fn lemma_region_sum<V>(b: BucketView, s: Seq<EntryView<V>>)
    requires
        tracks(b, s),
        s.len() > 0,
    ensures
        b.current + range_sum(b.counts, s.last().index as int, b.global as int) == s.len(),
{
    let lo = s.last().index;
    assert(s[s.len() - 1].index <= b.global);
    lemma_range_sum_counts(b, s, lo as int, b.global as int);
    lemma_count_from_split(s, lo, b.global);
    assert forall|i: int| 0 <= i < s.len() implies #[trigger] s[i].index >= lo by {
        assert(s[i].index >= s[s.len() - 1].index);
    }
    lemma_count_from_all(s, lo);
}

/// A real entry's reuse distance counts the entries before it, itself, and
/// the less-recent entries of its own bucket.
pub proof fn lemma_distance_counts<V>(c: &IndexedLruCache<V>, p: int)
    requires
        c.wf(),
        0 <= p < c@.real_len,
    ensures
        distance(c@.real_buckets, c@.entries[p].index, 0) == p + 1 + count(
            c@.entries.subrange(p + 1, c@.real_len as int),
            c@.entries[p].index,
        ),
{
    c.lemma_invariants();
    let v = c@;
    let s = v.real_part();
    let b = v.real_buckets;
    let idx = v.entries[p].index;
    assert(s[p] == v.entries[p]);
    assert(s[p].index <= b.global);
    assert(s[p].index >= s[s.len() - 1].index);
    lemma_range_sum_counts(b, s, idx as int, b.global as int);
    lemma_count_from_split(s, idx, b.global);
    lemma_count_from_position(s, p);
    assert(s.subrange(p + 1, s.len() as int) =~= v.entries.subrange(p + 1, v.real_len as int));
}

/// After `clear`, both regions and every bucket are empty.
pub proof fn lemma_cleared_is_clear<V>(c: &IndexedLruCache<V>)
    requires
        c.wf(),
        c@.len() == 0,
    ensures
        c@.is_clear(),
{
    c.lemma_invariants();
    let v = c@;
    assert(v.real_part() =~= Seq::<EntryView<V>>::empty());
    assert(v.ghost_part() =~= Seq::<EntryView<V>>::empty());
}

/// A key demoted out of the real region without overflowing the ghost
/// region is found in the ghost region: putting it again hands back no old
/// value and reports that it was a ghost.
pub proof fn lemma_resurrection<V>(c: &IndexedLruCache<V>, k: u64, is_update: bool, return_distance: bool)
    requires
        c.wf(),
        c@.real_len > 0,
        c@.entries[c@.real_len - 1].key == k,
        c@.demotion_victim().is_none(),
    ensures
        c@.demoted_within().is_ghost(k),
        c@.demoted_within().old_value(k).is_none(),
        c@.demoted_within().put_sample_of(k, is_update, return_distance) is Some,
        c@.demoted_within().put_sample_of(k, is_update, return_distance).unwrap().1,
{
    c.lemma_invariants();
    let v = c@;
    let d = v.demoted_within();
    let p = v.real_len - 1;
    assert(d == v.demoted());
    assert(d.entries[p].key == k);
    assert(d.has(k));
    assert forall|i: int| 0 <= i < d.len() && d.entries[i].key == k implies i == p by {
        assert(d.entries[i].key == v.entries[i].key);
        assert(v.pos(v.entries[i].key) == i);
        assert(v.pos(v.entries[p].key) == p);
    }
    assert(d.pos(k) == p);
}

/// Changing a value in place moves no entry and leaves every stamp and
/// counter as it was.
pub proof fn lemma_peek_keeps_order<V>(s: CacheView<V>, p: int, w: V)
    requires
        0 <= p < s.len(),
    ensures
        s.with_value_at(p, w).len() == s.len(),
        forall|i: int|
            0 <= i < s.len() ==> (#[trigger] s.with_value_at(p, w).entries[i]).key == s.entries[i].key
                && s.with_value_at(p, w).entries[i].index == s.entries[i].index && s.with_value_at(
                p,
                w,
            ).entries[i].epoch == s.entries[i].epoch,
        s.with_value_at(p, w).real_len == s.real_len,
        s.with_value_at(p, w).real_buckets == s.real_buckets,
        s.with_value_at(p, w).ghost_buckets == s.ghost_buckets,
{
}

} // verus!
