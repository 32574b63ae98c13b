//! Index allocation with bucket counters.
//!
//! Entries are stamped with the id of the bucket that was current when they
//! were last touched. Each bucket takes up to `interval` stamps before it is
//! sealed into the counter table and the next bucket opens; the table keeps,
//! for every sealed bucket, how many live entries still carry its id.
use vstd::prelude::*;
use crate::maps::{bucket_counts, BucketCounts};

verus! {

/// The model of a `BucketIndex`.
pub ghost struct BucketView {
    /// Id of the open bucket.
    pub global: u32,
    /// Lowest bucket id that distance estimates look at.
    pub earliest: u32,
    /// Live entries stamped with the open bucket's id.
    pub current: u32,
    /// Stamps a bucket takes before it is sealed.
    pub interval: u32,
    /// Live-entry counts of the sealed buckets that are kept.
    pub counts: Map<u32, u32>,
}

/// The state after one stamp has been handed out.
pub open spec fn allocated(b: BucketView) -> BucketView {
    if b.current >= b.interval {
        BucketView {
            global: (b.global + 1) as u32,
            current: 1,
            counts: b.counts.insert(b.global, b.current),
            ..b
        }
    } else {
        BucketView { current: (b.current + 1) as u32, ..b }
    }
}

/// Whether one live entry can be taken out of bucket `idx`.
pub open spec fn can_release(b: BucketView, idx: u32) -> bool {
    if idx == b.global {
        b.current > 0
    } else {
        b.counts.contains_key(idx) && b.counts[idx] > 0
    }
}

/// The state after one live entry has left bucket `idx`.
pub open spec fn released(b: BucketView, idx: u32) -> BucketView {
    if idx == b.global {
        BucketView { current: (b.current - 1) as u32, ..b }
    } else {
        BucketView { counts: b.counts.insert(idx, (b.counts[idx] - 1) as u32), ..b }
    }
}

/// Sum of the counts of the buckets `lo .. hi`.
pub open spec fn range_sum(counts: Map<u32, u32>, lo: int, hi: int) -> int
    decreases hi - lo,
{
    if hi <= lo {
        0
    } else {
        range_sum(counts, lo, hi - 1) + counts[(hi - 1) as u32]
    }
}

/// A sum of counts is never negative.
pub proof fn lemma_range_sum_nonneg(counts: Map<u32, u32>, lo: int, hi: int)
    ensures
        range_sum(counts, lo, hi) >= 0,
    decreases hi - lo,
{
    if hi > lo {
        lemma_range_sum_nonneg(counts, lo, hi - 1);
    }
}

/// The first bucket that a distance estimate from bucket `idx` counts.
pub open spec fn clamped(b: BucketView, idx: u32) -> u32 {
    if idx < b.earliest {
        b.earliest
    } else {
        idx
    }
}

/// The counters after the buckets from `earliest` up to `below` were
/// dropped and `below` became the earliest bucket.
pub open spec fn compacted(b: BucketView, below: u32) -> BucketView {
    BucketView {
        earliest: below,
        counts: b.counts.remove_keys(Set::new(|j: u32| b.earliest <= j < below)),
        ..b
    }
}

/// Reuse-distance estimate from bucket `idx`, on top of `base`: the live
/// entries of the open bucket and of every kept bucket from `idx` on.
pub open spec fn distance(b: BucketView, idx: u32, base: int) -> int {
    base + b.current + range_sum(b.counts, clamped(b, idx) as int, b.global as int)
}

/// A distance estimate as a `u32`, saturated at `u32::MAX`.
pub open spec fn saturated(d: int) -> u32 {
    if d > u32::MAX {
        u32::MAX
    } else {
        d as u32
    }
}

/// Whether the buckets that a distance estimate from `idx` reads are kept.
pub open spec fn covers(b: BucketView, idx: u32) -> bool {
    forall|j: u32| clamped(b, idx) <= j < b.global ==> #[trigger] b.counts.contains_key(j)
}

pub struct BucketIndex {
    global_index: u32,
    earliest_index: u32,
    current_count: u32,
    interval: u32,
    counters: BucketCounts,
}

impl View for BucketIndex {
    type V = BucketView;

    closed spec fn view(&self) -> BucketView {
        BucketView {
            global: self.global_index,
            earliest: self.earliest_index,
            current: self.current_count,
            interval: self.interval,
            counts: bucket_counts(self.counters),
        }
    }
}

impl BucketIndex {
    /// The allocator's own invariant.
    pub open spec fn wf(&self) -> bool {
        &&& self@.interval > 0
        &&& self@.current <= self@.interval
        &&& self@.counts.dom().finite()
        &&& forall|j: u32| #[trigger] self@.counts.contains_key(j) ==> j < self@.global
    }

    /// An allocator with no stamps handed out.
    pub fn new(interval: u32) -> (r: BucketIndex)
        requires
            interval > 0,
        ensures
            r.wf(),
            r@ == (BucketView { global: 0, earliest: 0, current: 0, interval, counts: Map::empty() }),
    {
        let r = BucketIndex {
            global_index: 0,
            earliest_index: 0,
            current_count: 0,
            interval,
            counters: BucketCounts::new(),
        };
        proof {
            assert(r@.counts =~= Map::empty());
        }
        r
    }

    /// Hands out a stamp: the id of the open bucket, after sealing it if it
    /// was full.
    pub fn allocate(&mut self) -> (r: u32)
        requires
            old(self).wf(),
            old(self)@.global < u32::MAX,
        ensures
            final(self).wf(),
            final(self)@ == allocated(old(self)@),
            r == final(self)@.global,
    {
        if self.current_count >= self.interval {
            self.counters.insert(self.global_index, self.current_count);
            self.current_count = 0;
            self.global_index = self.global_index + 1;
        }
        self.current_count = self.current_count + 1;
        proof {
            assert(self@.counts.dom().finite());
        }
        self.global_index
    }

    /// Takes one live entry out of bucket `idx`.
    pub fn release(&mut self, idx: u32)
        requires
            old(self).wf(),
            can_release(old(self)@, idx),
        ensures
            final(self).wf(),
            final(self)@ == released(old(self)@, idx),
    {
        if idx == self.global_index {
            self.current_count = self.current_count - 1;
        } else {
            let c = match self.counters.get(idx) {
                Some(c) => c,
                None => 0,
            };
            self.counters.insert(idx, c - 1);
        }
    }

    /// Reuse-distance estimate from bucket `idx` on top of `base`,
    /// saturated at `u32::MAX`.
    pub fn distance_from(&self, idx: u32, base: u32) -> (r: u32)
        requires
            covers(self@, idx),
        ensures
            r == saturated(distance(self@, idx, base as int)),
    {
        let start: u32 = if idx < self.earliest_index {
            self.earliest_index
        } else {
            idx
        };
        let mut d: u32 = base.saturating_add(self.current_count);
        let mut i: u32 = start;
        while i < self.global_index
            invariant
                start <= i,
                start == clamped(self@, idx),
                i <= self@.global || start >= self@.global,
                start >= self@.global ==> i == start,
                covers(self@, idx),
                d == saturated(base + self@.current + range_sum(self@.counts, start as int, i as int)),
            decreases self@.global - i,
        {
            let c = match self.counters.get(i) {
                Some(c) => c,
                None => 0,
            };
            proof {
                assert(self@.counts.contains_key(i));
                lemma_range_sum_nonneg(self@.counts, start as int, i as int);
                assert(range_sum(self@.counts, start as int, i + 1) == range_sum(
                    self@.counts,
                    start as int,
                    i as int,
                ) + self@.counts[i]);
            }
            d = d.saturating_add(c);
            i = i + 1;
        }
        proof {
            if start >= self@.global {
                assert(range_sum(self@.counts, start as int, self@.global as int) == 0);
            }
        }
        d
    }

    /// Drops the counters of the buckets from `earliest` up to `below`, and
    /// makes `below` the earliest bucket.
    pub fn compact(&mut self, below: u32)
        requires
            old(self).wf(),
        ensures
            final(self).wf(),
            final(self)@ == compacted(old(self)@, below),
    {
        let ghost start = self@;
        let mut i: u32 = self.earliest_index;
        proof {
            assert(start.counts.remove_keys(Set::new(|j: u32| start.earliest <= j < i))
                =~= start.counts);
        }
        while i < below
            invariant
                self.wf(),
                start.earliest <= i <= below || (i == start.earliest && below < i),
                self@ == (BucketView {
                    counts: start.counts.remove_keys(Set::new(|j: u32| start.earliest <= j < i)),
                    ..start
                }),
            decreases below - i,
        {
            self.counters.remove(i);
            proof {
                assert(start.counts.remove_keys(Set::new(|j: u32| start.earliest <= j < i)).remove(i)
                    =~= start.counts.remove_keys(Set::new(|j: u32| start.earliest <= j < (i + 1) as u32)));
            }
            i = i + 1;
        }
        proof {
            assert(start.counts.remove_keys(Set::new(|j: u32| start.earliest <= j < i))
                =~= start.counts.remove_keys(Set::new(|j: u32| start.earliest <= j < below)));
        }
        self.earliest_index = below;
        self.counters.shrink_to_fit();
    }

    /// Id of the open bucket.
    pub fn global_index(&self) -> (r: u32)
        ensures
            r == self@.global,
    {
        self.global_index
    }

    /// Live entries stamped with the open bucket's id.
    pub fn current_count(&self) -> (r: u32)
        ensures
            r == self@.current,
    {
        self.current_count
    }

    /// Stamps a bucket takes.
    pub fn interval(&self) -> (r: u32)
        ensures
            r == self@.interval,
    {
        self.interval
    }

    /// Lowest bucket that distance estimates look at.
    pub fn earliest_index(&self) -> (r: u32)
        ensures
            r == self@.earliest,
    {
        self.earliest_index
    }

    /// Every kept counter as a pair of bucket id and count, each once, in
    /// no particular order.
    pub fn counter_pairs(&self) -> (r: Vec<(u32, u32)>)
        ensures
            r@.len() == self@.counts.len(),
            forall|i: int|
                0 <= i < r@.len() ==> #[trigger] self@.counts.contains_key(r@[i].0) && self@.counts[r@[i].0]
                    == r@[i].1,
            forall|b: u32|
                #[trigger] self@.counts.contains_key(b) ==> exists|i: int| 0 <= i < r@.len() && r@[i].0 == b,
    {
        self.counters.pairs()
    }

    /// Number of sealed buckets whose counters are kept.
    pub fn bucket_count(&self) -> (r: usize)
        ensures
            r == self@.counts.len(),
    {
        self.counters.len()
    }

    /// Whether every kept counter is zero and no id is past the open bucket.
    pub fn all_zero(&self) -> (r: bool)
        ensures
            r == (forall|j: u32| #[trigger] self@.counts.contains_key(j)
                ==> self@.counts[j] == 0 && j <= self@.global),
    {
        let pairs = self.counters.pairs();
        let mut i: usize = 0;
        while i < pairs.len()
            invariant
                0 <= i <= pairs@.len(),
                pairs@.len() == self@.counts.len(),
                forall|k: int|
                    0 <= k < pairs@.len() ==> #[trigger] self@.counts.contains_key(pairs@[k].0)
                        && self@.counts[pairs@[k].0] == pairs@[k].1,
                forall|b: u32|
                    #[trigger] self@.counts.contains_key(b) ==> exists|k: int|
                        0 <= k < pairs@.len() && pairs@[k].0 == b,
                forall|k: int| 0 <= k < i ==> (#[trigger] pairs@[k]).1 == 0 && pairs@[k].0 <= self@.global,
            decreases pairs@.len() - i,
        {
            let (b, c) = pairs[i];
            if c != 0 || b > self.global_index {
                proof {
                    assert(self@.counts.contains_key(pairs@[i as int].0));
                }
                return false;
            }
            i = i + 1;
        }
        proof {
            assert forall|j: u32| #[trigger] self@.counts.contains_key(j)
                implies self@.counts[j] == 0 && j <= self@.global by {
                let k = choose|k: int| 0 <= k < pairs@.len() && pairs@[k].0 == j;
                assert(pairs@[k].1 == 0);
            }
        }
        true
    }
}

} // verus!
