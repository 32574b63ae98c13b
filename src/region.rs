//! The model of the cache's entries, and how a region of them relates to
//! the bucket counters that describe it.
use vstd::prelude::*;
use crate::buckets::{
    allocated, can_release, clamped, compacted, covers, range_sum, released, BucketView,
};

verus! {

/// One entry of the cache as the contracts see it.
pub ghost struct EntryView<V> {
    pub key: u64,
    /// `None` once the entry is in the ghost region.
    pub val: Option<V>,
    /// Epoch of the entry's last move to the most-recent end.
    pub epoch: u64,
    /// Bucket id the entry is stamped with.
    pub index: u32,
}

/// Number of entries of `s` stamped with bucket `b`.
pub open spec fn count<V>(s: Seq<EntryView<V>>, b: u32) -> nat
    decreases s.len(),
{
    if s.len() == 0 {
        0
    } else {
        count(s.drop_last(), b) + if s.last().index == b {
            1nat
        } else {
            0nat
        }
    }
}

/// Bucket ids never grow from the most-recent end to the least-recent end.
pub open spec fn monotone<V>(s: Seq<EntryView<V>>) -> bool {
    forall|i: int, j: int| 0 <= i <= j < s.len() ==> #[trigger] s[i].index >= #[trigger] s[j].index
}

/// The counters `b` describe the region `s`: every bucket that holds an
/// entry of `s` is open or kept, and each count is the number of entries
/// of `s` stamped with that bucket.
pub open spec fn tracks<V>(b: BucketView, s: Seq<EntryView<V>>) -> bool {
    &&& monotone(s)
    &&& forall|i: int| 0 <= i < s.len() ==> #[trigger] s[i].index <= b.global
    &&& s.len() > 0 ==> forall|j: u32|
        s.last().index <= j < b.global ==> #[trigger] b.counts.contains_key(j)
    &&& b.current == count(s, b.global)
    &&& forall|j: u32| #[trigger] b.counts.contains_key(j) ==> j < b.global && b.counts[j] == count(s, j)
}

pub proof fn lemma_count_concat<V>(a: Seq<EntryView<V>>, c: Seq<EntryView<V>>, b: u32)
    ensures
        count(a + c, b) == count(a, b) + count(c, b),
    decreases c.len(),
{
    if c.len() == 0 {
        assert(a + c =~= a);
    } else {
        assert((a + c).drop_last() =~= a + c.drop_last());
        lemma_count_concat(a, c.drop_last(), b);
    }
}

pub proof fn lemma_count_single<V>(e: EntryView<V>, b: u32)
    ensures
        count(seq![e], b) == if e.index == b {
            1nat
        } else {
            0nat
        },
{
    assert(seq![e].drop_last() =~= Seq::<EntryView<V>>::empty());
    assert(count(Seq::<EntryView<V>>::empty(), b) == 0);
    assert(seq![e].last() == e);
}

pub proof fn lemma_count_front<V>(e: EntryView<V>, s: Seq<EntryView<V>>, b: u32)
    ensures
        count(seq![e] + s, b) == count(s, b) + if e.index == b {
            1nat
        } else {
            0nat
        },
{
    lemma_count_concat(seq![e], s, b);
    lemma_count_single(e, b);
}

pub proof fn lemma_count_remove<V>(s: Seq<EntryView<V>>, p: int, b: u32)
    requires
        0 <= p < s.len(),
    ensures
        count(s.remove(p), b) + (if s[p].index == b {
            1nat
        } else {
            0nat
        }) == count(s, b),
{
    let l = s.subrange(0, p);
    let r = s.subrange(p + 1, s.len() as int);
    assert(s =~= l + (seq![s[p]] + r));
    assert(s.remove(p) =~= l + r);
    lemma_count_concat(l, seq![s[p]] + r, b);
    lemma_count_concat(l, r, b);
    lemma_count_front(s[p], r, b);
}

/// No entry of `s` is stamped above `g`, so none with `g + 1`.
pub proof fn lemma_count_above<V>(s: Seq<EntryView<V>>, g: u32, b: u32)
    requires
        forall|i: int| 0 <= i < s.len() ==> #[trigger] s[i].index <= g,
        b > g,
    ensures
        count(s, b) == 0,
    decreases s.len(),
{
    if s.len() > 0 {
        assert(s[s.len() - 1].index <= g);
        lemma_count_above(s.drop_last(), g, b);
    }
}

/// Two regions with the same bucket ids in the same places have the same
/// counts.
pub proof fn lemma_count_same_index<V>(s: Seq<EntryView<V>>, t: Seq<EntryView<V>>, b: u32)
    requires
        s.len() == t.len(),
        forall|i: int| 0 <= i < s.len() ==> #[trigger] s[i].index == t[i].index,
    ensures
        count(s, b) == count(t, b),
    decreases s.len(),
{
    if s.len() > 0 {
        assert(s[s.len() - 1].index == t[t.len() - 1].index);
        lemma_count_same_index(s.drop_last(), t.drop_last(), b);
    }
}

/// A new entry at the most-recent end, stamped by the allocator.
pub proof fn lemma_tracks_push<V>(b: BucketView, s: Seq<EntryView<V>>, e: EntryView<V>)
    requires
        tracks(b, s),
        b.global < u32::MAX,
        e.index == allocated(b).global,
    ensures
        tracks(allocated(b), seq![e] + s),
{
    let a = allocated(b);
    let t = seq![e] + s;
    assert forall|i: int, k: int| 0 <= i <= k < t.len() implies #[trigger] t[i].index >= #[trigger] t[k].index by {
        if i > 0 {
            assert(t[i] == s[i - 1] && t[k] == s[k - 1]);
        } else if k > 0 {
            assert(t[k] == s[k - 1]);
            assert(s[k - 1].index <= b.global);
        }
    }
    assert forall|i: int| 0 <= i < t.len() implies #[trigger] t[i].index <= a.global by {
        if i > 0 {
            assert(t[i] == s[i - 1]);
            assert(s[i - 1].index <= b.global);
        }
    }
    if s.len() > 0 {
        assert(t.last() == s.last());
        assert forall|j: u32| t.last().index <= j < a.global implies #[trigger] a.counts.contains_key(j) by {
            if j < b.global {
                assert(b.counts.contains_key(j));
            }
        }
    } else {
        assert(t.last() == e);
    }
    lemma_count_front(e, s, a.global);
    if b.current >= b.interval {
        lemma_count_above(s, b.global, a.global);
    }
    assert forall|j: u32| #[trigger] a.counts.contains_key(j) implies j < a.global && a.counts[j] == count(t, j) by {
        lemma_count_front(e, s, j);
        if b.current >= b.interval && j == b.global {
        } else {
            assert(b.counts.contains_key(j));
        }
    }
}

/// An entry leaves the region, and its bucket loses one live entry.
pub proof fn lemma_tracks_remove<V>(b: BucketView, s: Seq<EntryView<V>>, p: int)
    requires
        tracks(b, s),
        0 <= p < s.len(),
    ensures
        can_release(b, s[p].index),
        tracks(released(b, s[p].index), s.remove(p)),
{
    let idx = s[p].index;
    let t = s.remove(p);
    let r = released(b, idx);
    let n = s.len() - 1;
    lemma_count_remove(s, p, idx);
    assert(s[p].index >= s[n].index);
    assert(s[p].index <= b.global);
    if idx != b.global {
        assert(b.counts.contains_key(idx));
    }
    assert forall|i: int, k: int| 0 <= i <= k < t.len() implies #[trigger] t[i].index >= #[trigger] t[k].index by {
        if i >= p {
            assert(t[i] == s[i + 1] && t[k] == s[k + 1]);
            assert(s[i + 1].index >= s[k + 1].index);
        } else if k >= p {
            assert(t[i] == s[i] && t[k] == s[k + 1]);
            assert(s[i].index >= s[k + 1].index);
        } else {
            assert(t[i] == s[i] && t[k] == s[k]);
            assert(s[i].index >= s[k].index);
        }
    }
    assert forall|i: int| 0 <= i < t.len() implies #[trigger] t[i].index <= r.global by {
        if i >= p {
            assert(t[i] == s[i + 1]);
            assert(s[i + 1].index <= b.global);
        } else {
            assert(t[i] == s[i]);
            assert(s[i].index <= b.global);
        }
    }
    if t.len() > 0 {
        assert(t.last().index >= s[n].index) by {
            if p == n {
                assert(t.last() == s[n - 1]);
                assert(s[n - 1].index >= s[n].index);
            } else {
                assert(t.last() == s[n]);
            }
        }
        assert forall|j: u32| t.last().index <= j < r.global implies #[trigger] r.counts.contains_key(j) by {
            assert(b.counts.contains_key(j));
        }
    }
    lemma_count_remove(s, p, r.global);
    assert forall|j: u32| #[trigger] r.counts.contains_key(j) implies j < r.global && r.counts[j] == count(t, j) by {
        lemma_count_remove(s, p, j);
        assert(b.counts.contains_key(j));
    }
}

/// An entry of the open bucket moves to the most-recent end.
pub proof fn lemma_tracks_move<V>(b: BucketView, s: Seq<EntryView<V>>, p: int, e: EntryView<V>)
    requires
        tracks(b, s),
        0 <= p < s.len(),
        s[p].index == b.global,
        e.index == b.global,
    ensures
        tracks(b, seq![e] + s.remove(p)),
{
    let t = seq![e] + s.remove(p);
    lemma_tracks_remove(b, s, p);
    let u = s.remove(p);
    assert forall|j: u32| true implies count(t, j) == count(s, j) by {
        lemma_count_front(e, u, j);
        lemma_count_remove(s, p, j);
    }
    assert forall|i: int, k: int| 0 <= i <= k < t.len() implies #[trigger] t[i].index >= #[trigger] t[k].index by {
        if i > 0 {
            assert(t[i] == u[i - 1] && t[k] == u[k - 1]);
        } else if k > 0 {
            assert(t[k] == u[k - 1]);
        }
    }
    assert forall|i: int| 0 <= i < t.len() implies #[trigger] t[i].index <= b.global by {
        if i > 0 {
            assert(t[i] == u[i - 1]);
        }
    }
    if u.len() > 0 {
        assert(t.last() == u.last());
    } else {
        assert(t.last() == e);
    }
}

/// Changing what an entry holds, but not its bucket, keeps the counters
/// right.
pub proof fn lemma_tracks_same_index<V>(b: BucketView, s: Seq<EntryView<V>>, t: Seq<EntryView<V>>)
    requires
        tracks(b, s),
        s.len() == t.len(),
        forall|i: int| 0 <= i < s.len() ==> #[trigger] s[i].index == t[i].index,
    ensures
        tracks(b, t),
{
    assert forall|i: int, k: int| 0 <= i <= k < t.len() implies #[trigger] t[i].index >= #[trigger] t[k].index by {
        assert(s[i].index == t[i].index && s[k].index == t[k].index);
        assert(s[i].index >= s[k].index);
    }
    assert forall|i: int| 0 <= i < t.len() implies #[trigger] t[i].index <= b.global by {
        assert(s[i].index == t[i].index);
        assert(s[i].index <= b.global);
    }
    if t.len() > 0 {
        assert(s[s.len() - 1].index == t[t.len() - 1].index);
        assert(s.last() == s[s.len() - 1] && t.last() == t[t.len() - 1]);
    }
    lemma_count_same_index(s, t, b.global);
    assert forall|j: u32| #[trigger] b.counts.contains_key(j) implies j < b.global && b.counts[j] == count(t, j) by {
        lemma_count_same_index(s, t, j);
    }
}

/// The counters that a distance estimate from an entry of a tracked region
/// reads are all kept.
pub proof fn lemma_tracks_covers<V>(b: BucketView, s: Seq<EntryView<V>>, q: int)
    requires
        tracks(b, s),
        0 <= q < s.len(),
    ensures
        covers(b, s[q].index),
{
    assert(s[q].index >= s[s.len() - 1].index);
    assert forall|j: u32| clamped(b, s[q].index) <= j < b.global implies #[trigger] b.counts.contains_key(j) by {
        assert(s.last().index <= j);
    }
}

/// Dropping the counters of buckets older than every entry of the region
/// keeps them right.
pub proof fn lemma_tracks_compact<V>(b: BucketView, s: Seq<EntryView<V>>, below: u32)
    requires
        tracks(b, s),
        s.len() > 0 ==> below <= s.last().index,
    ensures
        tracks(compacted(b, below), s),
{
    let c = compacted(b, below);
    if s.len() > 0 {
        assert forall|j: u32| s.last().index <= j < c.global implies #[trigger] c.counts.contains_key(j) by {
            assert(b.counts.contains_key(j));
        }
    }
    assert forall|j: u32| #[trigger] c.counts.contains_key(j) implies j < c.global && c.counts[j] == count(s, j) by {
        assert(b.counts.contains_key(j));
    }
}

/// Number of entries of `s` stamped with bucket `lo` or a newer one.
pub open spec fn count_from<V>(s: Seq<EntryView<V>>, lo: u32) -> nat
    decreases s.len(),
{
    if s.len() == 0 {
        0
    } else {
        count_from(s.drop_last(), lo) + if s.last().index >= lo {
            1nat
        } else {
            0nat
        }
    }
}

/// Number of entries of `s` stamped with a bucket in `lo .. hi`.
pub open spec fn count_between<V>(s: Seq<EntryView<V>>, lo: int, hi: int) -> nat
    decreases s.len(),
{
    if s.len() == 0 {
        0
    } else {
        count_between(s.drop_last(), lo, hi) + if lo <= s.last().index < hi {
            1nat
        } else {
            0nat
        }
    }
}

proof fn lemma_count_between_step<V>(s: Seq<EntryView<V>>, lo: int, hi: int)
    requires
        0 <= lo < hi,
        hi - 1 <= u32::MAX,
    ensures
        count_between(s, lo, hi) == count_between(s, lo, hi - 1) + count(s, (hi - 1) as u32),
    decreases s.len(),
{
    if s.len() > 0 {
        lemma_count_between_step(s.drop_last(), lo, hi);
    }
}

proof fn lemma_count_between_empty<V>(s: Seq<EntryView<V>>, lo: int, hi: int)
    requires
        hi <= lo,
    ensures
        count_between(s, lo, hi) == 0,
    decreases s.len(),
{
    if s.len() > 0 {
        lemma_count_between_empty(s.drop_last(), lo, hi);
    }
}

/// The counters of the kept buckets `lo .. hi` add up to the entries
/// stamped with those buckets.
pub proof fn lemma_range_sum_counts<V>(b: BucketView, s: Seq<EntryView<V>>, lo: int, hi: int)
    requires
        tracks(b, s),
        0 <= lo,
        hi <= b.global,
        forall|j: u32| lo <= j < hi ==> #[trigger] b.counts.contains_key(j),
    ensures
        range_sum(b.counts, lo, hi) == count_between(s, lo, hi),
    decreases hi - lo,
{
    if hi <= lo {
        lemma_count_between_empty(s, lo, hi);
    } else {
        lemma_range_sum_counts(b, s, lo, hi - 1);
        lemma_count_between_step(s, lo, hi);
        assert(b.counts.contains_key((hi - 1) as u32));
    }
}

/// With no entry stamped above `g`, the entries from bucket `lo` on are
/// those below `g` plus those of `g`.
pub proof fn lemma_count_from_split<V>(s: Seq<EntryView<V>>, lo: u32, g: u32)
    requires
        lo <= g,
        forall|i: int| 0 <= i < s.len() ==> #[trigger] s[i].index <= g,
    ensures
        count_from(s, lo) == count_between(s, lo as int, g as int) + count(s, g),
    decreases s.len(),
{
    if s.len() > 0 {
        assert(s[s.len() - 1].index <= g);
        assert forall|i: int| 0 <= i < s.drop_last().len() implies #[trigger] s.drop_last()[i].index <= g by {
            assert(s.drop_last()[i] == s[i]);
        }
        lemma_count_from_split(s.drop_last(), lo, g);
    }
}

proof fn lemma_count_from_concat<V>(a: Seq<EntryView<V>>, c: Seq<EntryView<V>>, lo: u32)
    ensures
        count_from(a + c, lo) == count_from(a, lo) + count_from(c, lo),
    decreases c.len(),
{
    if c.len() == 0 {
        assert(a + c =~= a);
    } else {
        assert((a + c).drop_last() =~= a + c.drop_last());
        lemma_count_from_concat(a, c.drop_last(), lo);
    }
}

pub proof fn lemma_count_from_all<V>(s: Seq<EntryView<V>>, lo: u32)
    requires
        forall|i: int| 0 <= i < s.len() ==> #[trigger] s[i].index >= lo,
    ensures
        count_from(s, lo) == s.len(),
    decreases s.len(),
{
    if s.len() > 0 {
        assert(s[s.len() - 1].index >= lo);
        assert forall|i: int| 0 <= i < s.drop_last().len() implies #[trigger] s.drop_last()[i].index >= lo by {
            assert(s.drop_last()[i] == s[i]);
        }
        lemma_count_from_all(s.drop_last(), lo);
    }
}

proof fn lemma_count_from_at_most<V>(s: Seq<EntryView<V>>, lo: u32)
    requires
        forall|i: int| 0 <= i < s.len() ==> #[trigger] s[i].index <= lo,
    ensures
        count_from(s, lo) == count(s, lo),
    decreases s.len(),
{
    if s.len() > 0 {
        assert(s[s.len() - 1].index <= lo);
        assert forall|i: int| 0 <= i < s.drop_last().len() implies #[trigger] s.drop_last()[i].index <= lo by {
            assert(s.drop_last()[i] == s[i]);
        }
        lemma_count_from_at_most(s.drop_last(), lo);
    }
}

/// In a monotone region, the entries stamped no older than the entry at
/// position `p` are the `p + 1` first ones and the less-recent entries of
/// its own bucket.
pub proof fn lemma_count_from_position<V>(s: Seq<EntryView<V>>, p: int)
    requires
        monotone(s),
        0 <= p < s.len(),
    ensures
        count_from(s, s[p].index) == p + 1 + count(s.subrange(p + 1, s.len() as int), s[p].index),
{
    let idx = s[p].index;
    let a = s.subrange(0, p + 1);
    let c = s.subrange(p + 1, s.len() as int);
    assert(s =~= a + c);
    lemma_count_from_concat(a, c, idx);
    assert forall|i: int| 0 <= i < a.len() implies #[trigger] a[i].index >= idx by {
        assert(a[i] == s[i]);
        assert(s[i].index >= s[p].index);
    }
    lemma_count_from_all(a, idx);
    assert forall|i: int| 0 <= i < c.len() implies #[trigger] c[i].index <= idx by {
        assert(c[i] == s[p + 1 + i]);
        assert(s[p].index >= s[p + 1 + i].index);
    }
    lemma_count_from_at_most(c, idx);
}

/// No entry of `s` is stamped below `lo`, so none with an older bucket.
pub proof fn lemma_count_below<V>(s: Seq<EntryView<V>>, lo: u32, b: u32)
    requires
        forall|i: int| 0 <= i < s.len() ==> #[trigger] s[i].index >= lo,
        b < lo,
    ensures
        count(s, b) == 0,
    decreases s.len(),
{
    if s.len() > 0 {
        assert(s[s.len() - 1].index >= lo);
        assert forall|i: int| 0 <= i < s.drop_last().len() implies #[trigger] s.drop_last()[i].index >= lo by {
            assert(s.drop_last()[i] == s[i]);
        }
        lemma_count_below(s.drop_last(), lo, b);
    }
}

} // verus!
