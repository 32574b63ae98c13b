//! The cache: one list of entries, split by a marker into a real region
//! (entries that hold a value) and a ghost region (entries whose value was
//! dropped), a key index over both regions, and one bucket allocator for
//! each region.
use vstd::prelude::*;
use crate::buckets::{
    allocated, clamped, compacted, distance, lemma_range_sum_nonneg, released, saturated,
    BucketIndex, BucketView,
};
use crate::list::{EntryList, HEAD, TAIL};
use crate::maps::{key_slots, KeyIndex};
use crate::region::{
    lemma_tracks_compact, lemma_tracks_covers, lemma_tracks_move, lemma_tracks_push, lemma_tracks_remove, lemma_tracks_same_index, tracks,
    EntryView,
};

verus! {

pub type Epoch = u64;

/// The model of a cache.
pub ghost struct CacheView<V> {
    /// All entries, most-recent first: the real region, then the ghost
    /// region.
    pub entries: Seq<EntryView<V>>,
    /// Length of the real region.
    pub real_len: nat,
    pub cap: nat,
    pub ghost_cap: nat,
    pub cur_epoch: Epoch,
    /// Counters of the real region.
    pub real_buckets: BucketView,
    /// Counters of the ghost region.
    pub ghost_buckets: BucketView,
    pub accurate_tail: bool,
}

impl<V> CacheView<V> {
    pub open spec fn len(&self) -> nat {
        self.entries.len()
    }

    pub open spec fn ghost_len(&self) -> nat {
        (self.entries.len() - self.real_len) as nat
    }

    pub open spec fn real_part(&self) -> Seq<EntryView<V>> {
        self.entries.subrange(0, self.real_len as int)
    }

    pub open spec fn ghost_part(&self) -> Seq<EntryView<V>> {
        self.entries.subrange(self.real_len as int, self.entries.len() as int)
    }

    /// Whether some entry, real or ghost, holds key `k`.
    pub open spec fn has(&self, k: u64) -> bool {
        exists|i: int| 0 <= i < self.entries.len() && self.entries[i].key == k
    }

    /// Position of the entry that holds key `k`.
    pub open spec fn pos(&self, k: u64) -> int {
        choose|i: int| 0 <= i < self.entries.len() && self.entries[i].key == k
    }

    /// Whether key `k` is in the real region.
    pub open spec fn is_real(&self, k: u64) -> bool {
        self.has(k) && self.pos(k) < self.real_len
    }

    /// Whether key `k` is in the ghost region.
    pub open spec fn is_ghost(&self, k: u64) -> bool {
        self.has(k) && self.pos(k) >= self.real_len
    }

    /// The least-recent real entry becomes the most-recent ghost entry: its
    /// value is dropped and it takes a ghost stamp.
    pub open spec fn demoted(self) -> CacheView<V> {
        let p = self.real_len - 1;
        let g = allocated(self.ghost_buckets);
        CacheView {
            entries: self.entries.update(p, EntryView { val: None, index: g.global, ..self.entries[p] }),
            real_len: p as nat,
            real_buckets: released(self.real_buckets, self.entries[p].index),
            ghost_buckets: g,
            ..self
        }
    }

    /// The least-recent real entry is demoted; a ghost region that then
    /// overflows loses its least-recent entry.
    pub open spec fn demoted_within(self) -> CacheView<V> {
        let d = self.demoted();
        if d.ghost_len() > d.ghost_cap {
            d.without_lru()
        } else {
            d
        }
    }

    /// The key that leaves the ghost region when the least-recent real
    /// entry is demoted, if the ghost region overflows.
    pub open spec fn demotion_victim(self) -> Option<u64> {
        let d = self.demoted();
        if d.ghost_len() > d.ghost_cap {
            Some(d.entries.last().key)
        } else {
            None
        }
    }

    /// Whether the least-recent real entry was last touched before `epoch`.
    pub open spec fn real_lru_before(self, epoch: Epoch) -> bool {
        self.real_len > 0 && self.entries[self.real_len - 1].epoch < epoch
    }

    /// Demotes, as `demoted_within` does, every least-recent real entry
    /// last touched before `epoch`, up to the first one that is not.
    pub open spec fn evicted(self, epoch: Epoch) -> CacheView<V>
        decreases self.real_len,
    {
        if self.real_lru_before(epoch) && self.real_len <= self.entries.len() {
            self.demoted_within().evicted(epoch)
        } else {
            self
        }
    }

    /// Least-recent entries leave until the ghost region holds at most `n`.
    pub open spec fn ghost_shrunk(self, n: nat) -> CacheView<V>
        decreases self.entries.len(),
    {
        if self.ghost_len() > n && self.real_len <= self.entries.len() {
            self.without_lru().ghost_shrunk(n)
        } else {
            self
        }
    }

    /// Least-recent entries leave until none is left.
    pub open spec fn drained(self) -> CacheView<V>
        decreases self.entries.len(),
    {
        if self.entries.len() > 0 {
            self.without_lru().drained()
        } else {
            self
        }
    }

    /// Both regions are empty, and so is every bucket.
    pub open spec fn is_clear(self) -> bool {
        &&& self.real_len == 0
        &&& self.ghost_len() == 0
        &&& self.real_buckets.current == 0
        &&& self.ghost_buckets.current == 0
        &&& forall|j: u32| #[trigger] self.real_buckets.counts.contains_key(j)
            ==> self.real_buckets.counts[j] == 0 && j <= self.real_buckets.global
        &&& forall|j: u32| #[trigger] self.ghost_buckets.counts.contains_key(j)
            ==> self.ghost_buckets.counts[j] == 0 && j <= self.ghost_buckets.global
    }

    /// Bucket id of the least-recent real entry, zero when there is none.
    pub open spec fn real_lru_index(self) -> u32 {
        if self.real_len > 0 {
            self.entries[self.real_len - 1].index
        } else {
            0
        }
    }

    /// Bucket id of the least-recent entry, zero when there is none.
    pub open spec fn lru_index(self) -> u32 {
        if self.entries.len() > 0 {
            self.entries.last().index
        } else {
            0
        }
    }

    /// The least-recent entry, real or ghost, leaves the cache.
    pub open spec fn without_lru(self) -> CacheView<V> {
        let p = self.len() - 1;
        let e = self.entries[p];
        if p >= self.real_len {
            CacheView {
                entries: self.entries.drop_last(),
                ghost_buckets: released(self.ghost_buckets, e.index),
                ..self
            }
        } else {
            CacheView {
                entries: self.entries.drop_last(),
                real_len: p as nat,
                real_buckets: released(self.real_buckets, e.index),
                ..self
            }
        }
    }

    /// The real entry at position `p` moves to the most-recent end, stamped
    /// with the current epoch; an entry of an older bucket is re-stamped
    /// with the open one.
    pub open spec fn touched(self, p: int) -> CacheView<V> {
        let e = self.entries[p];
        let rb = if e.index != self.real_buckets.global {
            allocated(released(self.real_buckets, e.index))
        } else {
            self.real_buckets
        };
        CacheView {
            entries: seq![EntryView { epoch: self.cur_epoch, index: rb.global, ..e }] + self.entries.remove(p),
            real_buckets: rb,
            ..self
        }
    }

    /// Room for one more real entry: when the real region is full, its
    /// least-recent entry is demoted (and the ghost region, if it then
    /// overflows, loses its least-recent entry), or, with no ghost region,
    /// removed.
    pub open spec fn made_room(self) -> CacheView<V> {
        if self.real_len == self.cap {
            if self.ghost_cap > 0 {
                self.demoted_within()
            } else {
                self.without_lru()
            }
        } else {
            self
        }
    }

    /// Entry `e` joins the real region at the most-recent end.
    pub open spec fn with_front(self, e: EntryView<V>) -> CacheView<V> {
        CacheView { entries: seq![e] + self.entries, real_len: self.real_len + 1, ..self }
    }

    /// The entry at position `p` holds value `w`.
    pub open spec fn with_value_at(self, p: int, w: V) -> CacheView<V> {
        CacheView { entries: self.entries.update(p, EntryView { val: Some(w), ..self.entries[p] }), ..self }
    }

    /// The reuse distance that a lookup of the real entry at position `p`
    /// reports: the live real entries of its bucket and of every newer one.
    pub open spec fn real_distance(self, p: int) -> u32 {
        saturated(distance(self.real_buckets, self.entries[p].index, 0))
    }

    /// The real entry at position `p` takes value `v` and is touched.
    pub open spec fn replaced(self, p: int, v: V) -> CacheView<V> {
        CacheView { entries: self.entries.update(p, EntryView { val: Some(v), ..self.entries[p] }), ..self }.touched(
            p,
        )
    }

    /// The ghost entry at position `p` takes value `v` and rejoins the real
    /// region at the most-recent end; a real region that then overflows
    /// demotes its least-recent entry.
    pub open spec fn revived(self, p: int, v: V) -> CacheView<V> {
        let rb = allocated(self.real_buckets);
        let s1 = CacheView {
            entries: seq![EntryView { val: Some(v), epoch: self.cur_epoch, index: rb.global, ..self.entries[p] }]
                + self.entries.remove(p),
            real_len: self.real_len + 1,
            real_buckets: rb,
            ghost_buckets: released(self.ghost_buckets, self.entries[p].index),
            ..self
        };
        if s1.real_len > self.cap {
            s1.demoted()
        } else {
            s1
        }
    }

    /// A new entry for key `k` with value `v`, after room was made.
    pub open spec fn inserted(self, k: u64, v: V) -> CacheView<V> {
        let rb = allocated(self.real_buckets);
        CacheView { real_buckets: rb, ..self }.made_room().with_front(
            EntryView { key: k, val: Some(v), epoch: self.cur_epoch, index: rb.global },
        )
    }

    /// The model after `put(k, v)`.
    pub open spec fn after_put(self, k: u64, v: V) -> CacheView<V> {
        if self.is_real(k) {
            self.replaced(self.pos(k), v)
        } else if self.is_ghost(k) {
            self.revived(self.pos(k), v)
        } else if self.cap == 0 {
            self
        } else {
            self.inserted(k, v)
        }
    }

    /// The value that `put` on key `k` hands back: the old value of a real
    /// entry.
    pub open spec fn old_value(self, k: u64) -> Option<V> {
        if self.is_real(k) {
            self.entries[self.pos(k)].val
        } else {
            None
        }
    }

    /// The sample that `put_sample` on key `k` hands back: the distance,
    /// when asked for, and whether the key was in the ghost region.
    pub open spec fn put_sample_of(self, k: u64, is_update: bool, return_distance: bool) -> Option<(u32, bool)> {
        let e = self.entries[self.pos(k)];
        if self.is_real(k) {
            Some((if is_update && return_distance {
                saturated(distance(self.real_buckets, e.index, 0))
            } else {
                0
            }, false))
        } else if self.is_ghost(k) {
            Some((if is_update && (return_distance || self.accurate_tail) {
                saturated(distance(self.ghost_buckets, e.index, self.real_len as int))
            } else {
                0
            }, true))
        } else {
            None
        }
    }

    /// Whether the bucket counters can open `n` more buckets in each region.
    pub open spec fn has_room(&self, n: nat) -> bool {
        &&& self.real_buckets.global + n <= u32::MAX
        &&& self.ghost_buckets.global + n <= u32::MAX
    }
}

/// Stamps a ghost bucket takes: `ghost_cap` divided by
/// `ghost_bucket_count`, rounded up, at least one, and saturated at
/// `u32::MAX`.
pub open spec fn ghost_interval(ghost_cap: nat, ghost_bucket_count: nat) -> u32 {
    let q = ghost_cap as int / ghost_bucket_count as int + if ghost_cap as int % ghost_bucket_count as int == 0 {
        0int
    } else {
        1int
    };
    if q == 0 {
        1
    } else {
        saturated(q)
    }
}

pub struct IndexedLruCache<V> {
    map: KeyIndex,
    list: EntryList<V>,
    /// Largest size of the real region.
    cap: usize,
    /// Largest size of the ghost region.
    ghost_cap: usize,
    ghost_len: usize,
    /// First ghost slot, or `TAIL` when the ghost region is empty.
    ghost_head: usize,
    cur_epoch: Epoch,
    real_buckets: BucketIndex,
    ghost_buckets: BucketIndex,
    accurate_tail: bool,
}

impl<V> View for IndexedLruCache<V> {
    type V = CacheView<V>;

    closed spec fn view(&self) -> CacheView<V> {
        CacheView {
            entries: self.list.entries(),
            real_len: (self.list.order().len() - self.ghost_len) as nat,
            cap: self.cap as nat,
            ghost_cap: self.ghost_cap as nat,
            cur_epoch: self.cur_epoch,
            real_buckets: self.real_buckets@,
            ghost_buckets: self.ghost_buckets@,
            accurate_tail: self.accurate_tail,
        }
    }
}

impl<V> IndexedLruCache<V> {
    /// The cache's invariant.
    pub closed spec fn wf(&self) -> bool {
        &&& self.inv_with(Seq::empty())
        &&& self@.real_len <= self@.cap
        &&& self@.ghost_len() <= self@.ghost_cap
    }

    /// The invariant but for the bounds of the regions, with real counters
    /// that also count the entries `extra`, which are not linked yet.
    closed spec fn inv_with(&self, extra: Seq<EntryView<V>>) -> bool {
        &&& self.inv_core()
        &&& tracks(self@.real_buckets, extra + self@.real_part())
    }

    /// The invariant but for the bounds of the regions and the real counters.
    closed spec fn inv_core(&self) -> bool {
        let e = self.list.entries();
        let o = self.list.order();
        let v = self@;
        let m = key_slots(self.map);
        &&& self.list.wf()
        &&& self.real_buckets.wf()
        &&& self.ghost_buckets.wf()
        &&& m.dom().finite()
        &&& m.len() == o.len()
        &&& forall|i: int|
            0 <= i < o.len() ==> m.contains_key((#[trigger] e[i]).key) && m[e[i].key] == o[i]
        &&& self.ghost_len <= o.len()
        &&& forall|i: int| 0 <= i < o.len() ==> ((#[trigger] e[i]).val.is_some() <==> i < v.real_len)
        &&& self.ghost_head == if v.real_len < o.len() {
            o[v.real_len as int]
        } else {
            TAIL
        }
        &&& tracks(v.ghost_buckets, v.ghost_part())
        &&& forall|i: int| 0 <= i < o.len() ==> (#[trigger] e[i]).epoch <= v.cur_epoch
        &&& v.real_buckets.earliest <= v.real_buckets.global
        &&& forall|i: int| 0 <= i < v.real_len ==> (#[trigger] e[i]).index >= v.real_buckets.earliest
        &&& forall|j: u32| #[trigger] v.real_buckets.counts.contains_key(j) ==> j >= v.real_buckets.earliest
        &&& v.ghost_buckets.earliest <= v.ghost_buckets.global
        &&& forall|i: int| v.real_len <= i < o.len() ==> (#[trigger] e[i]).index >= v.ghost_buckets.earliest
        &&& forall|j: u32| #[trigger] v.ghost_buckets.counts.contains_key(j) ==> j >= v.ghost_buckets.earliest
        &&& forall|i: int, j: int| 0 <= i <= j < o.len() ==> #[trigger] e[i].epoch >= #[trigger] e[j].epoch
    }

    /// The keys that the key index holds.
    pub closed spec fn indexed_keys(&self) -> Set<u64> {
        key_slots(self.map).dom()
    }

    /// What every operation keeps, stated over the model: the key index
    /// holds one key per entry of either region; the regions fit their
    /// bounds; the real region comes first and holds the entries with
    /// values; each region's counters count its entries; keys are unique;
    /// no entry is stamped with a later epoch than the current one, and
    /// epochs never grow toward the least-recent end; no real entry is
    /// stamped with, and no real counter is kept for, a bucket older than
    /// the earliest one, and the same holds of the ghost region; neither
    /// earliest bucket is past its open one.
    pub proof fn lemma_invariants(&self)
        requires
            self.wf(),
        ensures
            self.indexed_keys().finite(),
            self.indexed_keys().len() == self@.real_len + self@.ghost_len(),
            self@.real_len <= self@.len(),
            forall|k: u64| #[trigger] self.indexed_keys().contains(k) <==> self@.has(k),
            self@.real_len <= self@.cap,
            self@.ghost_len() <= self@.ghost_cap,
            forall|i: int|
                0 <= i < self@.len() ==> ((#[trigger] self@.entries[i]).val.is_some() <==> i < self@.real_len),
            forall|i: int| 0 <= i < self@.len() ==> self@.pos((#[trigger] self@.entries[i]).key) == i,
            tracks(self@.real_buckets, self@.real_part()),
            tracks(self@.ghost_buckets, self@.ghost_part()),
            forall|i: int| 0 <= i < self@.len() ==> (#[trigger] self@.entries[i]).epoch <= self@.cur_epoch,
            forall|i: int|
                0 <= i < self@.real_len ==> (#[trigger] self@.entries[i]).index >= self@.real_buckets.earliest,
            forall|j: u32|
                #[trigger] self@.real_buckets.counts.contains_key(j) ==> j >= self@.real_buckets.earliest,
            self@.real_buckets.earliest <= self@.real_buckets.global,
            self@.ghost_buckets.earliest <= self@.ghost_buckets.global,
            forall|i: int|
                self@.real_len <= i < self@.len() ==> (#[trigger] self@.entries[i]).index >= self@.ghost_buckets.earliest,
            forall|j: u32|
                #[trigger] self@.ghost_buckets.counts.contains_key(j) ==> j >= self@.ghost_buckets.earliest,
            forall|i: int, j: int|
                0 <= i <= j < self@.len() ==> #[trigger] self@.entries[i].epoch >= #[trigger] self@.entries[j].epoch,
    {
        self.lemma_real_tracks();
        assert forall|k: u64| #[trigger] self.indexed_keys().contains(k) <==> self@.has(k) by {
            self.lemma_lookup(k);
        }
        assert forall|i: int| 0 <= i < self@.len() implies self@.pos((#[trigger] self@.entries[i]).key) == i by {
            self.lemma_lookup(self@.entries[i].key);
        }
    }

    /// `c` differs from `self` at most in the value of the real entry at
    /// position `p`.
    spec fn same_but_value(&self, c: &Self, p: int) -> bool {
        let e = self.list.entries();
        let f = c.list.entries();
        &&& c.map == self.map
        &&& c.list.wf()
        &&& c.list.order() == self.list.order()
        &&& c.cap == self.cap
        &&& c.ghost_cap == self.ghost_cap
        &&& c.ghost_len == self.ghost_len
        &&& c.ghost_head == self.ghost_head
        &&& c.cur_epoch == self.cur_epoch
        &&& c.real_buckets == self.real_buckets
        &&& c.ghost_buckets == self.ghost_buckets
        &&& c.accurate_tail == self.accurate_tail
        &&& f.len() == e.len()
        &&& forall|i: int| 0 <= i < e.len() && i != p ==> #[trigger] f[i] == e[i]
        &&& f[p].val.is_some()
        &&& f[p].key == e[p].key
        &&& f[p].epoch == e[p].epoch
        &&& f[p].index == e[p].index
    }

    /// Changing the value of a real entry keeps the invariant.
    proof fn lemma_value_change(&self, p: int)
        requires
            self.wf(),
            0 <= p < self@.real_len,
        ensures
            forall|c: Self| self.same_but_value(&c, p) ==> #[trigger] c.wf(),
    {
        assert forall|c: Self| self.same_but_value(&c, p) implies #[trigger] c.wf() by {
            let s = self@;
            let t = c@;
            self.lemma_real_tracks();
            assert forall|i: int| 0 <= i < s.real_len implies #[trigger] s.real_part()[i].index == t.real_part()[i].index by {
                assert(s.real_part()[i] == s.entries[i] && t.real_part()[i] == t.entries[i]);
            }
            lemma_tracks_same_index(s.real_buckets, s.real_part(), t.real_part());
            assert(t.ghost_part() =~= s.ghost_part()) by {
                assert forall|i: int| 0 <= i < t.ghost_part().len() implies t.ghost_part()[i] == s.ghost_part()[i] by {
                    assert(t.entries[i + s.real_len] == s.entries[i + s.real_len]);
                }
            }
            let e = t.entries;
            let m = key_slots(c.map);
            let o = c.list.order();
            assert forall|i: int| 0 <= i < o.len() implies m.contains_key((#[trigger] e[i]).key) && m[e[i].key] == o[i]
                && (e[i].val.is_some() <==> i < t.real_len) && e[i].epoch <= t.cur_epoch by {
                assert(s.entries[i] == self.list.entries()[i]);
                if i != p {
                    assert(e[i] == s.entries[i]);
                }
            }
            c.lemma_real_tracks();
        }
    }

    proof fn lemma_real_tracks(&self)
        requires
            self.inv_core(),
        ensures
            self.inv_with(Seq::empty()) <==> tracks(self@.real_buckets, self@.real_part()),
    {
        assert(Seq::<EntryView<V>>::empty() + self@.real_part() =~= self@.real_part());
    }

    /// The key index finds exactly the keys of the entries, each at the
    /// slot linked at its position.
    proof fn lemma_lookup(&self, k: u64)
        requires
            self.inv_core(),
        ensures
            key_slots(self.map).contains_key(k) <==> self@.has(k),
            self@.has(k) ==> self.list.at(key_slots(self.map)[k], self@.pos(k)),
            self@.has(k) ==> self@.entries[self@.pos(k)].key == k,
            forall|p: int|
                0 <= p < self@.len() && #[trigger] self@.entries[p].key == k ==> p == self@.pos(k),
    {
        let e = self.list.entries();
        let o = self.list.order();
        let m = key_slots(self.map);
        assert forall|p: int, q: int|
            0 <= p < e.len() && 0 <= q < e.len() && #[trigger] e[p].key == #[trigger] e[q].key implies p == q by {
            if p != q {
                self.list.lemma_distinct(p, q);
            }
        }
        if self@.has(k) {
            let p = self@.pos(k);
            assert(m.contains_key(e[p].key));
        } else if m.contains_key(k) {
            let ks = e.map_values(|x: EntryView<V>| x.key);
            assert(ks.no_duplicates()) by {
                assert forall|p: int, q: int| 0 <= p < ks.len() && 0 <= q < ks.len() && p != q
                    implies ks[p] != ks[q] by {
                    assert(ks[p] == e[p].key && ks[q] == e[q].key);
                }
            }
            ks.unique_seq_to_set();
            assert(ks.to_set().insert(k).subset_of(m.dom())) by {
                assert forall|x: u64| ks.to_set().insert(x).contains(x) implies true by {
                }
                assert forall|x: u64| #[trigger] ks.to_set().insert(k).contains(x) implies m.dom().contains(x) by {
                    if x != k {
                        let p = choose|p: int| 0 <= p < ks.len() && ks[p] == x;
                        assert(ks[p] == e[p].key);
                    }
                }
            }
            assert(!ks.to_set().contains(k)) by {
                if ks.to_set().contains(k) {
                    let p = choose|p: int| 0 <= p < ks.len() && ks[p] == k;
                    assert(ks[p] == e[p].key);
                }
            }
            vstd::set_lib::lemma_len_subset(ks.to_set().insert(k), m.dom());
        }
    }

    /// Builds a cache; the ghost buckets take `ghost_interval(ghost_cap,
    /// ghost_bucket_count)` stamps each.
    fn construct_in(
        cap: usize,
        ghost_cap: usize,
        update_interval: u32,
        ghost_bucket_count: usize,
        map: KeyIndex,
    ) -> (r: Self)
        requires
            update_interval > 0,
            ghost_bucket_count > 0,
            key_slots(map) =~= Map::empty(),
        ensures
            r.wf(),
            r@ == Self::fresh(cap as nat, ghost_cap as nat, update_interval, ghost_bucket_count as nat),
    {
        let whole = ghost_cap / ghost_bucket_count;
        let q: usize = if ghost_cap % ghost_bucket_count == 0 {
            whole
        } else {
            proof {
                assert(whole <= ghost_cap) by (nonlinear_arith)
                    requires
                        whole as int == ghost_cap as int / ghost_bucket_count as int,
                        ghost_bucket_count > 0,
                ;
                assert(ghost_cap as int % ghost_bucket_count as int != 0 ==> whole < ghost_cap) by (nonlinear_arith)
                    requires
                        whole as int == ghost_cap as int / ghost_bucket_count as int,
                        ghost_bucket_count > 0,
                ;
            }
            whole + 1
        };
        let ghost_update_interval: u32 = if q == 0 {
            1
        } else if q > u32::MAX as usize {
            u32::MAX
        } else {
            q as u32
        };
        let list = EntryList::new();
        let r = IndexedLruCache {
            map,
            list,
            cap,
            ghost_cap,
            ghost_len: 0,
            ghost_head: TAIL,
            cur_epoch: 0,
            real_buckets: BucketIndex::new(update_interval),
            ghost_buckets: BucketIndex::new(ghost_update_interval),
            accurate_tail: true,
        };
        proof {
            r.lemma_real_tracks();
            assert(r@.entries =~= Seq::<EntryView<V>>::empty());
            assert(r@.real_part() =~= Seq::<EntryView<V>>::empty());
            assert(r@.ghost_part() =~= Seq::<EntryView<V>>::empty());
            assert(key_slots(map).dom() =~= Set::<u64>::empty());
        }
        r
    }

    /// The model of a new cache.
    pub open spec fn fresh(cap: nat, ghost_cap: nat, update_interval: u32, ghost_bucket_count: nat) -> CacheView<V> {
        CacheView {
            entries: Seq::empty(),
            real_len: 0,
            cap,
            ghost_cap,
            cur_epoch: 0,
            real_buckets: BucketView { global: 0, earliest: 0, current: 0, interval: update_interval, counts: Map::empty() },
            ghost_buckets: BucketView {
                global: 0,
                earliest: 0,
                current: 0,
                interval: ghost_interval(ghost_cap, ghost_bucket_count),
                counts: Map::empty(),
            },
            accurate_tail: true,
        }
    }

    /// An empty cache whose real region holds up to `cap` entries and whose
    /// ghost region holds up to `ghost_cap`.
    pub fn new(cap: usize, ghost_cap: usize, update_interval: u32, ghost_bucket_count: usize) -> (r: Self)
        requires
            cap <= isize::MAX as usize / 64,
            update_interval > 0,
            ghost_bucket_count > 0,
        ensures
            r.wf(),
            r@ == Self::fresh(cap as nat, ghost_cap as nat, update_interval, ghost_bucket_count as nat),
    {
        Self::construct_in(cap, ghost_cap, update_interval, ghost_bucket_count, KeyIndex::with_capacity(cap))
    }

    /// An empty cache whose real region has no bound but `usize::MAX`.
    pub fn unbounded(ghost_cap: usize, update_interval: u32, ghost_bucket_count: usize) -> (r: Self)
        requires
            update_interval > 0,
            ghost_bucket_count > 0,
        ensures
            r.wf(),
            r@ == Self::fresh(usize::MAX as nat, ghost_cap as nat, update_interval, ghost_bucket_count as nat),
    {
        Self::construct_in(usize::MAX, ghost_cap, update_interval, ghost_bucket_count, KeyIndex::with_capacity(0))
    }

    pub fn cap(&self) -> (r: usize)
        requires
            self.wf(),
        ensures
            r == self@.cap,
    {
        self.cap
    }

    /// Size of the real region.
    pub fn len(&self) -> (r: usize)
        requires
            self.wf(),
        ensures
            r == self@.real_len,
    {
        self.cur_len()
    }

    fn cur_len(&self) -> (r: usize)
        requires
            self.inv_core(),
        ensures
            r == self@.real_len,
    {
        self.map.len() - self.ghost_len
    }

    pub fn ghost_cap(&self) -> (r: usize)
        requires
            self.wf(),
        ensures
            r == self@.ghost_cap,
    {
        self.ghost_cap
    }

    /// Size of the ghost region.
    pub fn ghost_len(&self) -> (r: usize)
        requires
            self.wf(),
        ensures
            r == self@.ghost_len(),
    {
        self.ghost_len
    }

    pub fn is_real_empty(&self) -> (r: bool)
        requires
            self.wf(),
        ensures
            r == (self@.real_len == 0),
    {
        self.len() == 0
    }

    /// Number of sealed real buckets whose counters are kept.
    pub fn bucket_count(&self) -> (r: usize)
        requires
            self.wf(),
        ensures
            r == self@.real_buckets.counts.len(),
    {
        self.real_buckets.bucket_count()
    }

    /// Number of sealed ghost buckets whose counters are kept.
    pub fn ghost_bucket_count(&self) -> (r: usize)
        requires
            self.wf(),
        ensures
            r == self@.ghost_buckets.counts.len(),
    {
        self.ghost_buckets.bucket_count()
    }

    /// Id of the open real bucket.
    pub fn global_index(&self) -> (r: u32)
        requires
            self.wf(),
        ensures
            r == self@.real_buckets.global,
    {
        self.real_buckets.global_index()
    }

    /// Live real entries stamped with the open real bucket.
    pub fn current_index_count(&self) -> (r: u32)
        requires
            self.wf(),
        ensures
            r == self@.real_buckets.current,
    {
        self.real_buckets.current_count()
    }

    /// Live ghost entries stamped with the open ghost bucket.
    pub fn ghost_current_index_count(&self) -> (r: u32)
        requires
            self.wf(),
        ensures
            r == self@.ghost_buckets.current,
    {
        self.ghost_buckets.current_count()
    }

    /// Stamps a real bucket takes.
    pub fn update_interval(&self) -> (r: u32)
        requires
            self.wf(),
        ensures
            r == self@.real_buckets.interval,
    {
        self.real_buckets.interval()
    }

    /// Stamps a ghost bucket takes.
    pub fn ghost_update_interval(&self) -> (r: u32)
        requires
            self.wf(),
        ensures
            r == self@.ghost_buckets.interval,
    {
        self.ghost_buckets.interval()
    }

    /// Lowest real bucket that distance estimates look at.
    pub fn earliest_index(&self) -> (r: u32)
        requires
            self.wf(),
        ensures
            r == self@.real_buckets.earliest,
    {
        self.real_buckets.earliest_index()
    }

    /// Lowest ghost bucket that distance estimates look at.
    pub fn ghost_earliest_index(&self) -> (r: u32)
        requires
            self.wf(),
        ensures
            r == self@.ghost_buckets.earliest,
    {
        self.ghost_buckets.earliest_index()
    }

    /// The kept real counters, each as a bucket id and its count, in no
    /// particular order.
    pub fn counters(&self) -> (r: Vec<(u32, u32)>)
        requires
            self.wf(),
        ensures
            r@.len() == self@.real_buckets.counts.len(),
            forall|i: int|
                0 <= i < r@.len() ==> #[trigger] self@.real_buckets.counts.contains_key(r@[i].0)
                    && self@.real_buckets.counts[r@[i].0] == r@[i].1,
            forall|b: u32|
                #[trigger] self@.real_buckets.counts.contains_key(b) ==> exists|i: int|
                    0 <= i < r@.len() && r@[i].0 == b,
    {
        self.real_buckets.counter_pairs()
    }

    /// The kept ghost counters, each as a bucket id and its count, in no
    /// particular order.
    pub fn ghost_counters(&self) -> (r: Vec<(u32, u32)>)
        requires
            self.wf(),
        ensures
            r@.len() == self@.ghost_buckets.counts.len(),
            forall|i: int|
                0 <= i < r@.len() ==> #[trigger] self@.ghost_buckets.counts.contains_key(r@[i].0)
                    && self@.ghost_buckets.counts[r@[i].0] == r@[i].1,
            forall|b: u32|
                #[trigger] self@.ghost_buckets.counts.contains_key(b) ==> exists|i: int|
                    0 <= i < r@.len() && r@[i].0 == b,
    {
        self.ghost_buckets.counter_pairs()
    }

    /// Id of the open ghost bucket.
    pub fn ghost_global_index(&self) -> (r: u32)
        requires
            self.wf(),
        ensures
            r == self@.ghost_buckets.global,
    {
        self.ghost_buckets.global_index()
    }

    pub fn current_epoch(&self) -> (r: Epoch)
        requires
            self.wf(),
        ensures
            r == self@.cur_epoch,
    {
        self.cur_epoch
    }

    /// Moves the cache to a later epoch.
    pub fn update_epoch(&mut self, epoch: Epoch)
        requires
            old(self).wf(),
            epoch > old(self)@.cur_epoch,
        ensures
            final(self).wf(),
            final(self)@ == (CacheView { cur_epoch: epoch, ..old(self)@ }),
    {
        self.cur_epoch = epoch;
    }

    /// Whether a promotion out of the ghost region also counts the ghost
    /// region's distance.
    pub fn set_accurate_tail(&mut self, accurate_tail: bool)
        requires
            old(self).wf(),
        ensures
            final(self).wf(),
            final(self)@ == (CacheView { accurate_tail, ..old(self)@ }),
    {
        self.accurate_tail = accurate_tail;
    }

    /// Moves the least-recent real entry into the ghost region and drops
    /// its value.
    fn shift_real_tail_to_ghost(&mut self, Ghost(extra): Ghost<Seq<EntryView<V>>>) -> (r: V)
        requires
            old(self).inv_with(extra),
            old(self)@.real_len > 0,
            old(self)@.ghost_buckets.global < u32::MAX,
        ensures
            final(self).inv_with(extra),
            final(self)@ == old(self)@.demoted(),
            key_slots(final(self).map) == key_slots(old(self).map),
            Some(r) == old(self)@.entries[old(self)@.real_len - 1].val,
    {
        let ghost s = self@;
        let ghost p = s.real_len - 1;
        let ghost o = self.list.order();
        let total = self.map.len();
        let node = self.list.prev_of(self.ghost_head, Ghost(s.real_len as int));
        proof {
            self.list.lemma_linked(p);
            if s.real_len < o.len() {
                self.list.lemma_linked(s.real_len as int);
            }
            assert(node == o[p]);
        }
        let new_index = self.ghost_buckets.allocate();
        let old_index = self.list.index_of(node);
        let taken = self.list.take_val(node, Ghost(p));
        self.list.set_index(node, new_index, Ghost(p));
        proof {
            lemma_tracks_remove(s.real_buckets, extra + s.real_part(), extra.len() + p);
            assert((extra + s.real_part())[extra.len() + p] == s.entries[p]);
        }
        self.real_buckets.release(old_index);
        self.ghost_len = self.ghost_len + 1;
        self.ghost_head = node;
        proof {
            let t = self@;
            let d = s.demoted();
            let ep = EntryView { val: None, index: new_index, ..s.entries[p] };
            assert(t.entries =~= d.entries);
            assert(t =~= d);
            assert(t.real_part() =~= s.real_part().remove(p));
            assert(extra + t.real_part() =~= (extra + s.real_part()).remove(extra.len() + p));
            assert(t.ghost_part() =~= seq![ep] + s.ghost_part());
            lemma_tracks_push(s.ghost_buckets, s.ghost_part(), ep);
            let e = t.entries;
            let m = key_slots(self.map);
            assert forall|i: int| 0 <= i < o.len() implies m.contains_key((#[trigger] e[i]).key) && m[e[i].key] == o[i] by {
                assert(e[i].key == s.entries[i].key);
            }
            assert forall|i: int| 0 <= i < o.len() implies ((#[trigger] e[i]).val.is_some() <==> i < t.real_len) by {
                if i != p {
                    assert(e[i] == s.entries[i]);
                }
            }
            assert forall|i: int| 0 <= i < o.len() implies (#[trigger] e[i]).epoch <= t.cur_epoch by {
                assert(e[i].epoch == s.entries[i].epoch);
            }
        }
        match taken {
            Some(v) => v,
            None => vstd::pervasive::unreached(),
        }
    }

    /// Takes the least-recent entry, real or ghost, out of the cache and
    /// hands back its key and what value it held.
    fn remove_last(&mut self, Ghost(extra): Ghost<Seq<EntryView<V>>>) -> (r: Option<(u64, Option<V>)>)
        requires
            old(self).inv_with(extra),
        ensures
            final(self).inv_with(extra),
            key_slots(final(self).map).dom().subset_of(key_slots(old(self).map).dom()),
            old(self)@.len() == 0 ==> r.is_none() && final(self)@ == old(self)@,
            old(self)@.len() > 0 ==> final(self)@ == old(self)@.without_lru() && r == Some(
                (old(self)@.entries.last().key, old(self)@.entries.last().val),
            ),
    {
        let ghost s = self@;
        let ghost o = self.list.order();
        let ghost p = o.len() - 1;
        let prev = self.list.prev_of(TAIL, Ghost(0));
        proof {
            if o.len() > 0 {
                self.list.lemma_linked(p);
            }
        }
        if prev == HEAD {
            return None;
        }
        proof {
            self.list.lemma_linked(p);
        }
        let k = self.list.key_of(prev);
        proof {
            self.lemma_lookup(k);
            assert(s.entries[p].key == k);
        }
        self.map.remove(k);
        if prev == self.ghost_head {
            self.ghost_head = self.list.next_of(prev, Ghost(p));
        }
        let idx = self.list.index_of(prev);
        let dropped = self.list.is_dropped(prev, Ghost(p));
        if dropped {
            proof {
                lemma_tracks_remove(s.ghost_buckets, s.ghost_part(), p - s.real_len);
            }
            self.ghost_buckets.release(idx);
            self.ghost_len = self.ghost_len - 1;
        } else {
            proof {
                lemma_tracks_remove(s.real_buckets, extra + s.real_part(), extra.len() + p);
                assert((extra + s.real_part())[extra.len() + p] == s.entries[p]);
            }
            self.real_buckets.release(idx);
        }
        self.list.unlink(prev, Ghost(p));
        let (key, val) = self.list.release(prev);
        proof {
            let t = self@;
            let d = s.without_lru();
            assert(t.entries =~= s.entries.drop_last());
            assert(t =~= d);
            let e = t.entries;
            let o2 = self.list.order();
            let m = key_slots(self.map);
            assert forall|i: int| 0 <= i < o2.len() implies m.contains_key((#[trigger] e[i]).key) && m[e[i].key] == o2[i] by {
                assert(e[i] == s.entries[i]);
                assert(o2[i] == o[i]);
                assert(s.entries[i].key != k);
            }
            assert forall|i: int| 0 <= i < o2.len() implies ((#[trigger] e[i]).val.is_some() <==> i < t.real_len) by {
                assert(e[i] == s.entries[i]);
            }
            assert forall|i: int| 0 <= i < o2.len() implies (#[trigger] e[i]).epoch <= t.cur_epoch by {
                assert(e[i] == s.entries[i]);
            }
            if dropped {
                assert(t.ghost_part() =~= s.ghost_part().remove(p - s.real_len));
                assert(t.real_part() =~= s.real_part());
            } else {
                assert(t.real_part() =~= s.real_part().remove(p));
                assert(extra + t.real_part() =~= (extra + s.real_part()).remove(extra.len() + p));
                assert(t.ghost_part() =~= s.ghost_part());
            }
        }
        Some((key, val))
    }

    /// Moves the real entry in slot `slot`, at position `p`, to the
    /// most-recent end; an entry of an older bucket is re-stamped with the
    /// open one.
    #[verifier::rlimit(40)]
    fn touch(&mut self, slot: usize, Ghost(p): Ghost<int>)
        requires
            old(self).wf(),
            old(self).list.at(slot, p),
            p < old(self)@.real_len,
            old(self)@.real_buckets.global < u32::MAX,
        ensures
            final(self).wf(),
            final(self)@ == old(self)@.touched(p),
            final(self).list.at(slot, 0),
    {
        let ghost s = self@;
        let ghost o = self.list.order();
        proof {
            self.lemma_real_tracks();
            self.list.lemma_linked(p);
            if s.real_len < o.len() {
                self.list.lemma_linked(s.real_len as int);
            }
            assert(s.real_part()[p] == s.entries[p]);
        }
        let ghost d = s.touched(p);
        let ghost ep = EntryView { epoch: s.cur_epoch, index: d.real_buckets.global, ..s.entries[p] };
        let old_index = self.list.index_of(slot);
        if old_index != self.real_buckets.global_index() {
            proof {
                lemma_tracks_remove(s.real_buckets, s.real_part(), p);
            }
            self.real_buckets.release(old_index);
            let idx = self.real_buckets.allocate();
            self.list.set_index(slot, idx, Ghost(p));
        }
        let ghost mid = self.list.entries();
        proof {
            assert(mid =~= s.entries.update(p, EntryView { index: d.real_buckets.global, ..s.entries[p] }));
            assert(mid.remove(p) =~= s.entries.remove(p));
            self.list.lemma_linked(p);
            assert(self.list.slot(slot) == mid[p]);
        }
        let ghost sv = self.list.slot(slot);
        self.list.unlink(slot, Ghost(p));
        proof {
            assert(self.list.slot(slot) == sv);
        }
        self.list.link_front(slot, self.cur_epoch);
        proof {
            let t = self@;
            assert(EntryView { epoch: s.cur_epoch, ..sv } == ep);
            assert(t.entries =~= d.entries);
            assert(t =~= d);
            let o2 = self.list.order();
            assert(o2 =~= seq![slot] + o.remove(p));
            assert(t.real_part() =~= seq![ep] + s.real_part().remove(p));
            assert(t.ghost_part() =~= s.ghost_part());
            if old_index != s.real_buckets.global {
                lemma_tracks_push(released(s.real_buckets, old_index), s.real_part().remove(p), ep);
            } else {
                lemma_tracks_move(s.real_buckets, s.real_part(), p, ep);
            }
            self.lemma_real_tracks();
            lemma_keys_moved(key_slots(self.map), s.entries, o, p, ep);
            lemma_front_parts(s.entries, p, ep, s.real_len, t.real_len, s.cur_epoch);
        }
    }

    /// Makes room for a new real entry as `made_room` says, and hands back
    /// a detached slot that holds `k` and `v`, stamped with `index`.
    fn replace_or_create_node(&mut self, k: u64, v: V, index: u32, Ghost(pend): Ghost<EntryView<V>>) -> (slot: usize)
        requires
            old(self).inv_with(seq![pend]),
            pend.index == index,
            old(self)@.real_len <= old(self)@.cap,
            old(self)@.ghost_len() <= old(self)@.ghost_cap,
            old(self)@.cap > 0,
            old(self)@.ghost_buckets.global < u32::MAX,
        ensures
            final(self).inv_with(seq![pend]),
            final(self)@ == old(self)@.made_room(),
            final(self).list.detached(slot),
            final(self).list.consistent(slot),
            final(self).list.slot(slot) == (EntryView { key: k, val: Some(v), epoch: old(self)@.cur_epoch, index }),
            final(self)@.real_len < final(self)@.cap,
            final(self)@.ghost_len() <= final(self)@.ghost_cap,
            key_slots(final(self).map).dom().subset_of(key_slots(old(self).map).dom()),
    {
        let ghost ex = seq![pend];
        if self.cur_len() == self.cap && self.ghost_cap > 0 {
            let _ = self.shift_real_tail_to_ghost(Ghost(ex));
            if self.ghost_len > self.ghost_cap {
                let _ = self.remove_last(Ghost(ex));
            }
        } else if self.cur_len() == self.cap {
            let _ = self.remove_last(Ghost(ex));
        }
        self.list.alloc_slot(k, v, self.cur_epoch, index)
    }
}


impl<V> IndexedLruCache<V> {
    /// Inserts or updates `k`; hands back the old value of a real entry.
    pub fn put(&mut self, k: u64, v: V) -> (r: Option<V>)
        requires
            old(self).wf(),
            old(self)@.has_room(1),
        ensures
            final(self).wf(),
            final(self)@ == old(self)@.after_put(k, v),
            r == old(self)@.old_value(k),
    {
        let (r, _) = self.put_sample(k, v, false, false);
        r
    }

    /// Inserts or updates `k`, as `put` does, and reports for a key that
    /// was present its reuse distance (when asked for) and whether it was
    /// in the ghost region.
    pub fn put_sample(&mut self, k: u64, v: V, is_update: bool, return_distance: bool) -> (r: (
        Option<V>,
        Option<(u32, bool)>,
    ))
        requires
            old(self).wf(),
            old(self)@.has_room(1),
        ensures
            final(self).wf(),
            final(self)@ == old(self)@.after_put(k, v),
            r.0 == old(self)@.old_value(k),
            r.1 == old(self)@.put_sample_of(k, is_update, return_distance),
    {
        let ghost s = self@;
        let ghost o = self.list.order();
        proof {
            self.lemma_lookup(k);
            self.lemma_real_tracks();
        }
        match self.map.get(k) {
            Some(slot) => {
                let ghost p = s.pos(k);
                proof {
                    self.list.lemma_linked(p);
                }
                if self.list.is_dropped(slot, Ghost(p)) {
                    let d = self.put_ghost_hit(slot, v, is_update && (return_distance || self.accurate_tail), Ghost(p));
                    (None, Some((d, true)))
                } else {
                    let (old_v, d) = self.put_real_hit(slot, v, is_update && return_distance, Ghost(p));
                    (old_v, Some((d, false)))
                }
            },
            None => {
                if self.cap == 0 {
                    return (None, None);
                }
                self.put_new(k, v);
                (None, None)
            },
        }
    }

    /// `put` on a key of the real region, at position `p` in slot `slot`;
    /// hands back the old value and, when asked for, the distance.
    fn put_real_hit(&mut self, slot: usize, v: V, want_distance: bool, Ghost(p): Ghost<int>) -> (r: (Option<V>, u32))
        requires
            old(self).wf(),
            old(self)@.has_room(1),
            old(self).list.at(slot, p),
            p < old(self)@.real_len,
        ensures
            final(self).wf(),
            final(self)@ == old(self)@.replaced(p, v),
            r.0 == old(self)@.entries[p].val,
            r.1 == if want_distance {
                saturated(distance(old(self)@.real_buckets, old(self)@.entries[p].index, 0))
            } else {
                0
            },
    {
        let ghost s = self@;
        let ghost o = self.list.order();
        proof {
            self.lemma_real_tracks();
            self.list.lemma_linked(p);
            assert(s.real_part()[p] == s.entries[p]);
            lemma_tracks_covers(s.real_buckets, s.real_part(), p);
        }
        let old_index = self.list.index_of(slot);
        let mut distance: u32 = 0;
        if want_distance {
            distance = self.real_buckets.distance_from(old_index, 0);
        }
        let old_v = self.list.put_val(slot, v, Ghost(p));
        proof {
            let t = self@;
            assert(t.real_part() =~= s.real_part().update(p, t.entries[p]));
            assert(t.ghost_part() =~= s.ghost_part());
            lemma_tracks_same_index(s.real_buckets, s.real_part(), t.real_part());
            self.lemma_real_tracks();
            let e = t.entries;
            let m = key_slots(self.map);
            assert forall|i: int| 0 <= i < o.len() implies m.contains_key((#[trigger] e[i]).key) && m[e[i].key] == o[i]
                && (e[i].val.is_some() <==> i < t.real_len) && e[i].epoch <= t.cur_epoch by {
                if i != p {
                    assert(e[i] == s.entries[i]);
                }
            }
            assert(t.entries =~= s.entries.update(p, EntryView { val: Some(v), ..s.entries[p] }));
        }
        self.touch(slot, Ghost(p));
        (old_v, distance)
    }

    /// `put` on a key of the ghost region, at position `p` in slot `slot`;
    /// hands back, when asked for, the distance.
    #[verifier::rlimit(40)]
    fn put_ghost_hit(&mut self, slot: usize, v: V, want_distance: bool, Ghost(p): Ghost<int>) -> (r: u32)
        requires
            old(self).wf(),
            old(self)@.has_room(1),
            old(self).list.at(slot, p),
            old(self)@.real_len <= p,
        ensures
            final(self).wf(),
            final(self)@ == old(self)@.revived(p, v),
            r == if want_distance {
                saturated(distance(old(self)@.ghost_buckets, old(self)@.entries[p].index, old(self)@.real_len as int))
            } else {
                0
            },
    {
        let ghost s = self@;
        let ghost o = self.list.order();
        let ghost q = p - s.real_len;
        proof {
            self.lemma_real_tracks();
            self.list.lemma_linked(p);
            self.list.lemma_linked(s.real_len as int);
            if p != s.real_len {
                self.list.lemma_distinct(s.real_len as int, p);
            }
            assert(s.ghost_part()[q] == s.entries[p]);
            lemma_tracks_covers(s.ghost_buckets, s.ghost_part(), q);
            lemma_tracks_remove(s.ghost_buckets, s.ghost_part(), q);
        }
        let old_index = self.list.index_of(slot);
        let mut distance: u32 = 0;
        if want_distance {
            let len = self.cur_len();
            let base: u32 = if len > u32::MAX as usize {
                u32::MAX
            } else {
                len as u32
            };
            distance = self.ghost_buckets.distance_from(old_index, base);
            proof {
                lemma_range_sum_nonneg(
                    s.ghost_buckets.counts,
                    clamped(s.ghost_buckets, old_index) as int,
                    s.ghost_buckets.global as int,
                );
            }
        }
        let ghost rb = allocated(s.real_buckets);
        let ghost ep = EntryView { val: Some(v), epoch: s.cur_epoch, index: rb.global, ..s.entries[p] };
        let new_index = self.real_buckets.allocate();
        let _ = self.list.put_val(slot, v, Ghost(p));
        self.list.set_index(slot, new_index, Ghost(p));
        if slot == self.ghost_head {
            self.ghost_head = self.list.next_of(slot, Ghost(p));
        }
        self.ghost_buckets.release(old_index);
        self.ghost_len = self.ghost_len - 1;
        let ghost mid = self.list.entries();
        proof {
            assert(mid.remove(p) =~= s.entries.remove(p));
            assert(self.list.slot(slot) == mid[p]);
        }
        let ghost sv = self.list.slot(slot);
        self.list.unlink(slot, Ghost(p));
        proof {
            assert(self.list.slot(slot) == sv);
        }
        self.list.link_front(slot, self.cur_epoch);
        proof {
            let t = self@;
            assert(EntryView { epoch: s.cur_epoch, ..sv } == ep);
            assert(t.entries =~= seq![ep] + s.entries.remove(p));
            let o2 = self.list.order();
            assert(o2 =~= seq![slot] + o.remove(p));
            assert(t.real_part() =~= seq![ep] + s.real_part());
            assert(t.ghost_part() =~= s.ghost_part().remove(q));
            lemma_tracks_push(s.real_buckets, s.real_part(), ep);
            lemma_keys_moved(key_slots(self.map), s.entries, o, p, ep);
            lemma_front_parts(s.entries, p, ep, s.real_len, t.real_len, s.cur_epoch);
            if p == s.real_len {
                if p + 1 < o.len() {
                    assert(o2[t.real_len as int] == o[p + 1]);
                }
            } else {
                assert(o[s.real_len as int] != slot);
                assert(o2[t.real_len as int] == o[s.real_len as int]);
            }
            self.lemma_real_tracks();
        }
        if self.cur_len() > self.cap {
            let _ = self.shift_real_tail_to_ghost(Ghost(Seq::empty()));
        }
        proof {
            self.lemma_real_tracks();
        }
        distance
    }

    /// `put` on a key that is absent, in a cache with room for entries.
    #[verifier::rlimit(40)]
    fn put_new(&mut self, k: u64, v: V)
        requires
            old(self).wf(),
            old(self)@.has_room(1),
            !old(self)@.has(k),
            old(self)@.cap > 0,
        ensures
            final(self).wf(),
            final(self)@ == old(self)@.inserted(k, v),
    {
        let ghost s = self@;
        proof {
            self.lemma_real_tracks();
            self.lemma_lookup(k);
        }
        let ghost rb = allocated(s.real_buckets);
        let ghost pend = EntryView { key: k, val: Some(v), epoch: s.cur_epoch, index: rb.global };
        proof {
            lemma_tracks_push(s.real_buckets, s.real_part(), pend);
        }
        let index = self.real_buckets.allocate();
        let slot = self.replace_or_create_node(k, v, index, Ghost(pend));
        let ghost mr = self@;
        let ghost om = self.list.order();
        let ghost mm = key_slots(self.map);
        proof {
            assert(!mm.contains_key(k));
        }
        self.list.link_front(slot, self.cur_epoch);
        self.map.insert(k, slot);
        proof {
            let t = self@;
            assert(t.entries =~= seq![pend] + mr.entries);
            assert(t =~= mr.with_front(pend));
            let o2 = self.list.order();
            assert(t.real_part() =~= seq![pend] + mr.real_part());
            assert(t.ghost_part() =~= mr.ghost_part());
            let e = t.entries;
            let m = key_slots(self.map);
            assert forall|i: int| 0 <= i < o2.len() implies m.contains_key((#[trigger] e[i]).key) && m[e[i].key] == o2[i]
                && (e[i].val.is_some() <==> i < t.real_len) && e[i].epoch <= t.cur_epoch by {
                if i > 0 {
                    assert(e[i] == mr.entries[i - 1] && o2[i] == om[i - 1]);
                    assert(mm.contains_key(mr.entries[i - 1].key));
                }
            }
            if mr.real_len < om.len() {
                assert(o2[t.real_len as int] == om[mr.real_len as int]);
            }
            self.lemma_real_tracks();
        }
    }
}

impl<V> IndexedLruCache<V> {
    /// The value of a real entry; nothing changes.
    pub fn peek(&self, k: u64) -> (r: Option<&V>)
        requires
            self.wf(),
        ensures
            self@.is_real(k) ==> r.is_some() && Some(*r.unwrap()) == self@.entries[self@.pos(k)].val,
            !self@.is_real(k) ==> r.is_none(),
    {
        proof {
            self.lemma_lookup(k);
        }
        match self.map.get(k) {
            None => None,
            Some(slot) => {
                let ghost p = self@.pos(k);
                if self.list.is_dropped(slot, Ghost(p)) {
                    None
                } else {
                    Some(self.list.val_ref(slot, Ghost(p)))
                }
            },
        }
    }

    /// The value of a real entry, to change in place; the order of the
    /// entries and the counters stay as they are.
    pub fn peek_mut(&mut self, k: u64) -> (r: Option<&mut V>)
        requires
            old(self).wf(),
        ensures
            final(self).wf(),
            old(self)@.is_real(k) ==> r.is_some() && *r.unwrap() == old(self)@.entries[old(self)@.pos(k)].val.unwrap()
                && final(self)@ == old(self)@.with_value_at(old(self)@.pos(k), *final(r.unwrap())),
            !old(self)@.is_real(k) ==> r.is_none() && final(self)@ == old(self)@,
    {
        proof {
            self.lemma_lookup(k);
        }
        match self.map.get(k) {
            None => None,
            Some(slot) => {
                let ghost p = self@.pos(k);
                if self.list.is_dropped(slot, Ghost(p)) {
                    None
                } else {
                    proof {
                        self.lemma_value_change(p);
                    }
                    Some(self.list.val_mut(slot, Ghost(p)))
                }
            },
        }
    }
}

impl<V> IndexedLruCache<V> {
    /// Whether `k` is in the ghost region.
    pub fn is_ghost(&self, k: u64) -> (r: bool)
        requires
            self.wf(),
        ensures
            r == self@.is_ghost(k),
    {
        proof {
            self.lemma_lookup(k);
        }
        match self.map.get(k) {
            Some(slot) => {
                let ghost p = self@.pos(k);
                self.list.is_dropped(slot, Ghost(p))
            },
            None => false,
        }
    }

    /// Whether `k` is in the real region. Asking about the ghost region
    /// (`check_ghost`) for a ghost key is not supported.
    pub fn contains(&self, k: u64, check_ghost: bool) -> (r: bool)
        requires
            self.wf(),
            !(check_ghost && self@.is_ghost(k)),
        ensures
            r == self@.is_real(k),
    {
        proof {
            self.lemma_lookup(k);
        }
        match self.map.get(k) {
            Some(slot) => {
                let ghost p = self@.pos(k);
                !self.list.is_dropped(slot, Ghost(p))
            },
            None => false,
        }
    }

    /// The value of a real entry, which moves to the most-recent end.
    /// Asking about the ghost region (`check_ghost`) for a ghost key is not
    /// supported.
    pub fn get_mut(&mut self, k: u64, check_ghost: bool) -> (r: Option<&mut V>)
        requires
            old(self).wf(),
            old(self)@.has_room(1),
            !(check_ghost && old(self)@.is_ghost(k)),
        ensures
            final(self).wf(),
            old(self)@.is_real(k) ==> r.is_some() && *r.unwrap() == old(self)@.entries[old(self)@.pos(k)].val.unwrap()
                && final(self)@ == old(self)@.touched(old(self)@.pos(k)).with_value_at(0, *final(r.unwrap())),
            !old(self)@.is_real(k) ==> r.is_none() && final(self)@ == old(self)@,
    {
        let (r, _) = self.get_mut_sample(k, check_ghost, false);
        r
    }

    /// As `get_mut`, and reports for a real entry its reuse distance when
    /// asked for (zero otherwise).
    pub fn get_mut_sample(&mut self, k: u64, check_ghost: bool, return_distance: bool) -> (r: (
        Option<&mut V>,
        Option<u32>,
    ))
        requires
            old(self).wf(),
            old(self)@.has_room(1),
            !(check_ghost && old(self)@.is_ghost(k)),
        ensures
            final(self).wf(),
            old(self)@.is_real(k) ==> r.0.is_some() && *r.0.unwrap() == old(self)@.entries[old(self)@.pos(
                k,
            )].val.unwrap() && final(self)@ == old(self)@.touched(old(self)@.pos(k)).with_value_at(
                0,
                *final(r.0.unwrap()),
            ) && r.1 == Some(
                if return_distance {
                    old(self)@.real_distance(old(self)@.pos(k))
                } else {
                    0
                },
            ),
            !old(self)@.is_real(k) ==> r.0.is_none() && r.1.is_none() && final(self)@ == old(self)@,
    {
        let ghost s = self@;
        proof {
            self.lemma_lookup(k);
        }
        match self.map.get(k) {
            None => (None, None),
            Some(slot) => {
                let ghost p = s.pos(k);
                if self.list.is_dropped(slot, Ghost(p)) {
                    return (None, None);
                }
                proof {
                    self.lemma_real_tracks();
                    self.list.lemma_linked(p);
                    assert(s.real_part()[p] == s.entries[p]);
                    lemma_tracks_covers(s.real_buckets, s.real_part(), p);
                }
                let mut distance: u32 = 0;
                if return_distance {
                    let old_index = self.list.index_of(slot);
                    distance = self.real_buckets.distance_from(old_index, 0);
                }
                self.touch(slot, Ghost(p));
                proof {
                    self.lemma_value_change(0);
                }
                (Some(self.list.val_mut(slot, Ghost(0))), Some(distance))
            },
        }
    }
}

impl<V> IndexedLruCache<V> {
    /// Demotes the least-recent real entry and hands back its value, with
    /// the key that left the ghost region if it overflowed.
    pub fn pop_lru_once(&mut self) -> (r: Option<(Option<u64>, V)>)
        requires
            old(self).wf(),
            old(self)@.has_room(1),
        ensures
            final(self).wf(),
            old(self)@.real_len == 0 ==> r.is_none() && final(self)@ == old(self)@,
            old(self)@.real_len > 0 ==> final(self)@ == old(self)@.demoted_within() && r == Some(
                (old(self)@.demotion_victim(), old(self)@.entries[old(self)@.real_len - 1].val.unwrap()),
            ),
    {
        let ghost s = self@;
        proof {
            self.lemma_real_tracks();
        }
        if self.cur_len() == 0 {
            return None;
        }
        let v = self.shift_real_tail_to_ghost(Ghost(Seq::empty()));
        let r = if self.ghost_len > self.ghost_cap {
            match self.remove_last(Ghost(Seq::empty())) {
                Some((key, _)) => Some((Some(key), v)),
                None => None,
            }
        } else {
            Some((None, v))
        };
        proof {
            self.lemma_real_tracks();
        }
        r
    }

    /// `pop_lru_once`, when the least-recent real entry was last touched
    /// before `epoch`; else nothing changes.
    pub fn pop_lru_by_epoch(&mut self, epoch: Epoch) -> (r: Option<(Option<u64>, V)>)
        requires
            old(self).wf(),
            old(self)@.has_room(1),
        ensures
            final(self).wf(),
            !old(self)@.real_lru_before(epoch) ==> r.is_none() && final(self)@ == old(self)@,
            old(self)@.real_lru_before(epoch) ==> final(self)@ == old(self)@.demoted_within() && r == Some(
                (old(self)@.demotion_victim(), old(self)@.entries[old(self)@.real_len - 1].val.unwrap()),
            ),
    {
        let ghost s = self@;
        let ghost o = self.list.order();
        if self.cur_len() == 0 {
            return None;
        }
        let node = self.list.prev_of(self.ghost_head, Ghost(s.real_len as int));
        proof {
            self.list.lemma_linked(s.real_len - 1);
            if s.real_len < o.len() {
                self.list.lemma_linked(s.real_len as int);
            }
        }
        if self.list.epoch_of(node) < epoch {
            self.pop_lru_once()
        } else {
            None
        }
    }

    /// Demotes, from the least-recent end, every real entry last touched
    /// before `epoch`, up to the first one that is not; a ghost region that
    /// overflows loses its least-recent entry each time.
    pub fn evict_by_epoch(&mut self, epoch: Epoch)
        requires
            old(self).wf(),
            old(self)@.ghost_buckets.global + old(self)@.real_len <= u32::MAX,
        ensures
            final(self).wf(),
            final(self)@ == old(self)@.evicted(epoch),
            final(self)@.real_len <= old(self)@.real_len,
            forall|i: int| 0 <= i < final(self)@.real_len ==> #[trigger] final(self)@.entries[i] == old(self)@.entries[i],
            forall|i: int|
                final(self)@.real_len <= i < old(self)@.real_len ==> (#[trigger] old(self)@.entries[i]).epoch < epoch,
            forall|i: int| 0 <= i < final(self)@.real_len ==> (#[trigger] final(self)@.entries[i]).epoch >= epoch,
    {
        loop
            invariant
                self.wf(),
                self@.ghost_buckets.global + self@.real_len <= u32::MAX,
                self@.evicted(epoch) == old(self)@.evicted(epoch),
                self@.real_len <= old(self)@.real_len,
                forall|i: int| 0 <= i < self@.real_len ==> #[trigger] self@.entries[i] == old(self)@.entries[i],
                forall|i: int|
                    self@.real_len <= i < old(self)@.real_len ==> (#[trigger] old(self)@.entries[i]).epoch < epoch,
            ensures
                self.wf(),
                self@ == old(self)@.evicted(epoch),
                self@.real_len <= old(self)@.real_len,
                forall|i: int| 0 <= i < self@.real_len ==> #[trigger] self@.entries[i] == old(self)@.entries[i],
                forall|i: int|
                    self@.real_len <= i < old(self)@.real_len ==> (#[trigger] old(self)@.entries[i]).epoch < epoch,
                forall|i: int| 0 <= i < self@.real_len ==> (#[trigger] self@.entries[i]).epoch >= epoch,
            decreases self@.real_len,
        {
            let ghost s = self@;
            let ghost o = self.list.order();
            if self.is_real_empty() {
                proof {
                    assert(s.evicted(epoch) == s);
                }
                break;
            }
            let node = self.list.prev_of(self.ghost_head, Ghost(s.real_len as int));
            proof {
                self.list.lemma_linked(s.real_len - 1);
                if s.real_len < o.len() {
                    self.list.lemma_linked(s.real_len as int);
                }
            }
            if self.list.epoch_of(node) < epoch {
                proof {
                    self.lemma_real_tracks();
                }
                let _ = self.shift_real_tail_to_ghost(Ghost(Seq::empty()));
                if self.ghost_len > self.ghost_cap {
                    let _ = self.remove_last(Ghost(Seq::empty()));
                }
                proof {
                    self.lemma_real_tracks();
                    assert(self@ == s.demoted_within());
                    assert(s.evicted(epoch) == s.demoted_within().evicted(epoch));
                    assert(self@.real_len == s.real_len - 1);
                    assert forall|i: int| 0 <= i < self@.real_len implies #[trigger] self@.entries[i] == s.entries[i] by {
                        assert(s.demoted().entries[i] == s.entries[i]);
                    }
                    assert(s.entries[s.real_len - 1] == old(self)@.entries[s.real_len - 1]);
                }
            } else {
                proof {
                    assert(s.evicted(epoch) == s);
                    let e = self.list.entries();
                    assert forall|i: int| 0 <= i < s.real_len implies (#[trigger] s.entries[i]).epoch >= epoch by {
                        assert(e[i].epoch >= e[s.real_len - 1].epoch);
                    }
                }
                break;
            }
        }
        self.map.shrink_to_fit();
    }

    /// Takes the least-recent entry, real or ghost, out of the cache and
    /// hands back its key; a real entry's value is dropped.
    pub fn pop_lru(&mut self) -> (r: Option<u64>)
        requires
            old(self).wf(),
        ensures
            final(self).wf(),
            old(self)@.len() == 0 ==> r.is_none() && final(self)@ == old(self)@,
            old(self)@.len() > 0 ==> final(self)@ == old(self)@.without_lru() && r == Some(
                old(self)@.entries.last().key,
            ),
    {
        proof {
            self.lemma_real_tracks();
        }
        let r = match self.remove_last(Ghost(Seq::empty())) {
            Some((key, _)) => Some(key),
            None => None,
        };
        proof {
            self.lemma_real_tracks();
        }
        r
    }

    /// Drops the counters of buckets older than the least-recent entry of
    /// each region.
    pub fn adjust_counters(&mut self)
        requires
            old(self).wf(),
        ensures
            final(self).wf(),
            final(self)@ == (CacheView {
                real_buckets: if old(self)@.real_len > 0 {
                    compacted(old(self)@.real_buckets, old(self)@.real_lru_index())
                } else {
                    old(self)@.real_buckets
                },
                ghost_buckets: if old(self)@.ghost_len() > 0 {
                    compacted(old(self)@.ghost_buckets, old(self)@.lru_index())
                } else {
                    old(self)@.ghost_buckets
                },
                ..old(self)@
            }),
            final(self)@.real_buckets.earliest >= old(self)@.real_buckets.earliest,
            final(self)@.ghost_buckets.earliest >= old(self)@.ghost_buckets.earliest,
            forall|j: u32|
                #[trigger] final(self)@.real_buckets.counts.contains_key(j) ==> j >= final(self)@.real_buckets.earliest,
            forall|j: u32|
                #[trigger] final(self)@.ghost_buckets.counts.contains_key(j) ==> j >= final(self)@.ghost_buckets.earliest,
    {
        let ghost s = self@;
        let ghost o = self.list.order();
        let ghost e = self.list.entries();
        proof {
            self.lemma_real_tracks();
            self.list.lemma_sigils();
            if s.real_len > 0 {
                self.list.lemma_linked(s.real_len - 1);
            }
            if s.real_len < o.len() {
                self.list.lemma_linked(s.real_len as int);
            }
            if o.len() > 0 {
                self.list.lemma_linked(o.len() - 1);
            }
        }
        if self.cur_len() > 0 {
            let real_tail = self.list.prev_of(self.ghost_head, Ghost(s.real_len as int));
            let real_tail_index = self.list.index_of(real_tail);
            self.real_buckets.compact(real_tail_index);
            proof {
                let rp = s.real_part();
                assert(rp.last() == s.entries[s.real_len - 1]);
                lemma_tracks_compact(s.real_buckets, rp, real_tail_index);
                assert(rp[rp.len() - 1].index <= s.real_buckets.global);
                assert forall|i: int| 0 <= i < s.real_len implies (#[trigger] e[i]).index >= real_tail_index by {
                    assert(rp[i] == s.entries[i]);
                    assert(rp[i].index >= rp[rp.len() - 1].index);
                }
            }
        }
        if self.ghost_len > 0 {
            let ghost_tail = self.list.prev_of(TAIL, Ghost(0));
            let ghost_tail_index = self.list.index_of(ghost_tail);
            self.ghost_buckets.compact(ghost_tail_index);
            proof {
                let gp = s.ghost_part();
                assert(gp.last() == s.entries.last());
                lemma_tracks_compact(s.ghost_buckets, gp, ghost_tail_index);
                assert(gp[gp.len() - 1].index <= s.ghost_buckets.global);
                assert forall|i: int| s.real_len <= i < o.len() implies (#[trigger] e[i]).index >= ghost_tail_index by {
                    assert(gp[i - s.real_len] == s.entries[i]);
                    assert(gp[i - s.real_len].index >= gp[gp.len() - 1].index);
                }
            }
        }
        proof {
            self.lemma_real_tracks();
        }
    }
}

impl<V> IndexedLruCache<V> {
    /// Sets the ghost region's bound to `ghost_cap`, after taking
    /// least-recent entries out until the ghost region fits in it.
    pub fn resize_ghost(&mut self, ghost_cap: usize)
        requires
            old(self).wf(),
        ensures
            final(self).wf(),
            final(self)@ == if ghost_cap == old(self)@.ghost_cap {
                old(self)@
            } else {
                CacheView { ghost_cap: ghost_cap as nat, ..old(self)@.ghost_shrunk(ghost_cap as nat) }
            },
    {
        if ghost_cap == self.ghost_cap {
            return;
        }
        while self.ghost_len > ghost_cap
            invariant
                self.wf(),
                self@.ghost_shrunk(ghost_cap as nat) == old(self)@.ghost_shrunk(ghost_cap as nat),
                self@.ghost_cap == old(self)@.ghost_cap,
            decreases self@.len(),
        {
            let ghost s = self@;
            let _ = self.pop_lru();
            proof {
                assert(s.ghost_shrunk(ghost_cap as nat) == s.without_lru().ghost_shrunk(ghost_cap as nat));
            }
        }
        proof {
            assert(self@.ghost_shrunk(ghost_cap as nat) == self@);
        }
        self.map.shrink_to_fit();
        self.ghost_cap = ghost_cap;
    }

    /// Takes every entry out of the cache.
    pub fn clear(&mut self)
        requires
            old(self).wf(),
        ensures
            final(self).wf(),
            final(self)@ == old(self)@.drained(),
            final(self)@.len() == 0,
            final(self)@.real_len == 0,
    {
        loop
            invariant
                self.wf(),
                self@.drained() == old(self)@.drained(),
            ensures
                self.wf(),
                self@.len() == 0,
                self@ == old(self)@.drained(),
            decreases self@.len(),
        {
            let ghost s = self@;
            if self.pop_lru().is_none() {
                proof {
                    assert(s.drained() == s);
                }
                break;
            }
            proof {
                assert(s.drained() == s.without_lru().drained());
            }
        }
    }

    /// Whether both regions and every bucket are empty.
    pub fn check_clear(&self) -> (r: bool)
        requires
            self.wf(),
        ensures
            r == self@.is_clear(),
    {
        self.cur_len() == 0 && self.ghost_len == 0 && self.real_buckets.current_count() == 0
            && self.ghost_buckets.current_count() == 0 && self.real_buckets.all_zero()
            && self.ghost_buckets.all_zero()
    }
}

/// Moving the entry at position `p` to the front, with the same key, keeps
/// the key index right.
proof fn lemma_keys_moved<V>(m: Map<u64, usize>, e: Seq<EntryView<V>>, o: Seq<usize>, p: int, x: EntryView<V>)
    requires
        0 <= p < o.len(),
        e.len() == o.len(),
        x.key == e[p].key,
        forall|i: int| 0 <= i < o.len() ==> m.contains_key((#[trigger] e[i]).key) && m[e[i].key] == o[i],
    ensures
        forall|i: int|
            0 <= i < o.len() ==> m.contains_key((#[trigger] (seq![x] + e.remove(p))[i]).key) && m[(seq![x]
                + e.remove(p))[i].key] == (seq![o[p]] + o.remove(p))[i],
{
    let e2 = seq![x] + e.remove(p);
    let o2 = seq![o[p]] + o.remove(p);
    assert forall|i: int| 0 <= i < o.len() implies m.contains_key((#[trigger] e2[i]).key) && m[e2[i].key] == o2[i] by {
        if i == 0 {
            assert(e2[0] == x && o2[0] == o[p]);
            assert(m.contains_key(e[p].key));
        } else if i <= p {
            assert(e2[i] == e[i - 1] && o2[i] == o[i - 1]);
            assert(m.contains_key(e[i - 1].key));
        } else {
            assert(e2[i] == e[i] && o2[i] == o[i]);
            assert(m.contains_key(e[i].key));
        }
    }
}

/// After the entry at position `p` moves to the front as `x`, with a value
/// exactly when the real region grows to take it or it was real, the
/// regions and epochs stay right.
proof fn lemma_front_parts<V>(e: Seq<EntryView<V>>, p: int, x: EntryView<V>, real_len: nat, new_real_len: nat, epoch: u64)
    requires
        0 <= p < e.len(),
        real_len <= e.len(),
        x.val.is_some(),
        x.epoch <= epoch,
        new_real_len == if p < real_len {
            real_len
        } else {
            real_len + 1
        },
        forall|i: int| 0 <= i < e.len() ==> ((#[trigger] e[i]).val.is_some() <==> i < real_len),
        forall|i: int| 0 <= i < e.len() ==> (#[trigger] e[i]).epoch <= epoch,
    ensures
        forall|i: int|
            0 <= i < e.len() ==> ((#[trigger] (seq![x] + e.remove(p))[i]).val.is_some() <==> i < new_real_len),
        forall|i: int| 0 <= i < e.len() ==> (#[trigger] (seq![x] + e.remove(p))[i]).epoch <= epoch,
{
    let e2 = seq![x] + e.remove(p);
    assert forall|i: int| 0 <= i < e.len() implies ((#[trigger] e2[i]).val.is_some() <==> i < new_real_len) && e2[i].epoch <= epoch by {
        if i == 0 {
            assert(e2[0] == x);
        } else if i <= p {
            assert(e2[i] == e[i - 1]);
        } else {
            assert(e2[i] == e[i]);
        }
    }
}


} // verus!
