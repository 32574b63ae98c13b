//! The entries of the cache in one doubly-linked list, kept in an arena.
//!
//! Slots `HEAD` and `TAIL` hold the two sigils; every other slot holds an
//! entry that is linked between them or sits on the free list. A ghost
//! sequence records the linked slots from the most-recent end to the
//! least-recent end.
use vstd::prelude::*;
use crate::region::EntryView;

verus! {

/// Slot of the sigil before the most-recent entry.
pub const HEAD: usize = 0;

/// Slot of the sigil after the least-recent entry.
pub const TAIL: usize = 1;

/// One node of the list.
pub(crate) struct IndexedLruEntry<V> {
    pub(crate) key: u64,
    pub(crate) val: Option<V>,
    pub(crate) prev: usize,
    pub(crate) next: usize,
    pub(crate) epoch: u64,
    pub(crate) index: u32,
    pub(crate) dropped: bool,
}

impl<V> IndexedLruEntry<V> {
    /// A node that holds `key` and `val`, not yet linked.
    pub(crate) fn new(key: u64, val: V, epoch: u64, index: u32) -> (r: Self)
        ensures
            r.key == key,
            r.val == Some(val),
            r.epoch == epoch,
            r.index == index,
            !r.dropped,
    {
        IndexedLruEntry { key, val: Some(val), prev: HEAD, next: TAIL, epoch, index, dropped: false }
    }

    /// A sigil node: no value, epoch and bucket zero.
    pub(crate) fn new_sigil() -> (r: Self)
        ensures
            r.val.is_none(),
            r.epoch == 0,
            r.index == 0,
            !r.dropped,
    {
        IndexedLruEntry { key: 0, val: None, prev: HEAD, next: TAIL, epoch: 0, index: 0, dropped: false }
    }
}

pub struct EntryList<V> {
    nodes: Vec<IndexedLruEntry<V>>,
    free: Vec<usize>,
    order: Ghost<Seq<usize>>,
}

impl<V> EntryList<V> {
    /// The linked slots, most-recent first.
    pub closed spec fn order(&self) -> Seq<usize> {
        self.order@
    }

    /// What slot `s` holds, as the contracts see it.
    pub closed spec fn slot(&self, s: usize) -> EntryView<V> {
        let n = self.nodes@[s as int];
        EntryView { key: n.key, val: n.val, epoch: n.epoch, index: n.index }
    }

    /// The linked entries, most-recent first.
    pub open spec fn entries(&self) -> Seq<EntryView<V>> {
        Seq::new(self.order().len(), |i: int| self.slot(self.order()[i]))
    }

    /// Number of slots of the arena.
    pub closed spec fn slots(&self) -> nat {
        self.nodes@.len()
    }

    pub closed spec fn prev_slot(&self, i: int) -> usize {
        if i == 0 {
            HEAD
        } else {
            self.order@[i - 1]
        }
    }

    pub closed spec fn next_slot(&self, i: int) -> usize {
        if i + 1 == self.order@.len() {
            TAIL
        } else {
            self.order@[i + 1]
        }
    }

    pub closed spec fn wf(&self) -> bool {
        let n = self.nodes@;
        let o = self.order@;
        &&& n.len() >= 2
        &&& n[HEAD as int].index == 0
        &&& o.no_duplicates()
        &&& forall|i: int| 0 <= i < o.len() ==> 2 <= #[trigger] o[i] < n.len()
        &&& forall|i: int|
            0 <= i < o.len() ==> (#[trigger] n[o[i] as int]).prev == self.prev_slot(i) && n[o[i] as int].next
                == self.next_slot(i) && n[o[i] as int].dropped == n[o[i] as int].val.is_none()
        &&& n[HEAD as int].next == (if o.len() == 0 {
            TAIL
        } else {
            o[0]
        })
        &&& n[TAIL as int].prev == (if o.len() == 0 {
            HEAD
        } else {
            o[o.len() - 1]
        })
        &&& self.free@.no_duplicates()
        &&& forall|j: int|
            0 <= j < self.free@.len() ==> 2 <= #[trigger] self.free@[j] < n.len() && !o.contains(
                self.free@[j],
            )
    }

    /// Whether slot `s` waits on the free list.
    pub closed spec fn on_free_list(&self, s: usize) -> bool {
        self.free@.contains(s)
    }

    /// Slot `s` marks its value as dropped exactly when it has none.
    pub closed spec fn consistent(&self, s: usize) -> bool {
        self.nodes@[s as int].dropped == self.nodes@[s as int].val.is_none()
    }

    /// Slot `s` is neither linked nor on the free list.
    pub open spec fn detached(&self, s: usize) -> bool {
        &&& 2 <= s < self.slots()
        &&& !self.order().contains(s)
        &&& !self.on_free_list(s)
    }

    /// A slot of the arena that is linked at position `p`.
    pub open spec fn at(&self, s: usize, p: int) -> bool {
        0 <= p < self.order().len() && self.order()[p] == s
    }

    /// An empty list: the two sigils, linked to each other.
    pub fn new() -> (r: Self)
        ensures
            r.wf(),
            r.order() == Seq::<usize>::empty(),
    {
        let mut nodes: Vec<IndexedLruEntry<V>> = Vec::new();
        let mut head = IndexedLruEntry::new_sigil();
        head.next = TAIL;
        let mut tail = IndexedLruEntry::new_sigil();
        tail.prev = HEAD;
        nodes.push(head);
        nodes.push(tail);
        EntryList { nodes, free: Vec::new(), order: Ghost(Seq::empty()) }
    }

    /// A linked slot is a slot of the arena, distinct from the sigils.
    pub proof fn lemma_linked(&self, p: int)
        requires
            self.wf(),
            0 <= p < self.order().len(),
        ensures
            2 <= self.order()[p] < self.slots(),
            self.entries()[p] == self.slot(self.order()[p]),
    {
    }

    /// The sigils are slots of the arena.
    pub proof fn lemma_sigils(&self)
        requires
            self.wf(),
        ensures
            HEAD < self.slots(),
            TAIL < self.slots(),
    {
    }

    /// Linked slots are distinct.
    pub proof fn lemma_distinct(&self, p: int, q: int)
        requires
            self.wf(),
            0 <= p < self.order().len(),
            0 <= q < self.order().len(),
            p != q,
        ensures
            self.order()[p] != self.order()[q],
    {
    }

    /// Slot before slot `s` in the list.
    pub fn prev_of(&self, s: usize, Ghost(p): Ghost<int>) -> (r: usize)
        requires
            self.wf(),
            s == TAIL || self.at(s, p),
        ensures
            s == TAIL ==> r == (if self.order().len() == 0 {
                HEAD
            } else {
                self.order()[self.order().len() - 1]
            }),
            s != TAIL ==> r == (if p == 0 {
                HEAD
            } else {
                self.order()[p - 1]
            }),
    {
        self.nodes[s].prev
    }

    /// Slot after the linked slot `s`.
    pub fn next_of(&self, s: usize, Ghost(p): Ghost<int>) -> (r: usize)
        requires
            self.wf(),
            self.at(s, p),
        ensures
            r == (if p + 1 == self.order().len() {
                TAIL
            } else {
                self.order()[p + 1]
            }),
    {
        self.nodes[s].next
    }

    /// Bucket id of slot `s`; the head sigil's is zero.
    pub fn index_of(&self, s: usize) -> (r: u32)
        requires
            self.wf(),
            s < self.slots(),
        ensures
            r == self.slot(s).index,
            s == HEAD ==> r == 0,
    {
        self.nodes[s].index
    }

    pub fn key_of(&self, s: usize) -> (r: u64)
        requires
            s < self.slots(),
        ensures
            r == self.slot(s).key,
    {
        self.nodes[s].key
    }

    pub fn epoch_of(&self, s: usize) -> (r: u64)
        requires
            s < self.slots(),
        ensures
            r == self.slot(s).epoch,
    {
        self.nodes[s].epoch
    }

    /// Whether the linked slot `s` is in the ghost region.
    pub fn is_dropped(&self, s: usize, Ghost(p): Ghost<int>) -> (r: bool)
        requires
            self.wf(),
            self.at(s, p),
        ensures
            r == self.slot(s).val.is_none(),
    {
        self.nodes[s].dropped
    }

    /// Takes the linked slot `s`, at position `p`, out of the list; what
    /// every slot holds stays.
    pub fn unlink(&mut self, s: usize, Ghost(p): Ghost<int>)
        requires
            old(self).wf(),
            old(self).at(s, p),
        ensures
            final(self).wf(),
            final(self).order() == old(self).order().remove(p),
            final(self).slots() == old(self).slots(),
            forall|t: usize| t < old(self).slots() ==> #[trigger] final(self).slot(t) == old(self).slot(t),
            final(self).entries() == old(self).entries().remove(p),
            !final(self).order().contains(s),
            !final(self).on_free_list(s),
            final(self).consistent(s),
    {
        let ghost o = self.order@;
        let prev = self.nodes[s].prev;
        let next = self.nodes[s].next;
        assert(prev != s && next != s && prev != next) by {
            if p > 0 {
                assert(o[p - 1] != o[p]);
            }
            if p + 1 < o.len() {
                assert(o[p + 1] != o[p]);
            }
            if p > 0 && p + 1 < o.len() {
                assert(o[p - 1] != o[p + 1]);
            }
        }
        self.nodes[prev].next = next;
        self.nodes[next].prev = prev;
        self.order = Ghost(o.remove(p));
        proof {
            let n = self.nodes@;
            let o2 = self.order@;
            assert forall|i: int| 0 <= i < o2.len() implies 2 <= #[trigger] o2[i] < n.len() by {
                if i < p {
                    assert(o2[i] == o[i]);
                } else {
                    assert(o2[i] == o[i + 1]);
                }
            }
            assert forall|i: int| 0 <= i < o2.len() implies (#[trigger] n[o2[i] as int]).prev == self.prev_slot(i)
                && n[o2[i] as int].next == self.next_slot(i) && n[o2[i] as int].dropped == n[o2[i] as int].val.is_none() by {
                if i < p {
                    assert(o2[i] == o[i]);
                    if i > 0 {
                        assert(o[i - 1] != o[i]);
                    }
                    if i + 1 < p {
                        assert(o[i + 1] != o[i]);
                    }
                } else {
                    assert(o2[i] == o[i + 1]);
                    if i + 2 < o.len() {
                        assert(o[i + 2] != o[i + 1]);
                    }
                    if i > p {
                        assert(o[i] != o[i + 1]);
                    }
                }
            }
            assert forall|j: int| 0 <= j < self.free@.len() implies 2 <= #[trigger] self.free@[j] < n.len()
                && !o2.contains(self.free@[j]) by {
                if o2.contains(self.free@[j]) {
                    let k = choose|k: int| 0 <= k < o2.len() && o2[k] == self.free@[j];
                    if k < p {
                        assert(o[k] == o2[k]);
                    } else {
                        assert(o[k + 1] == o2[k]);
                    }
                }
            }
            assert(o2.no_duplicates()) by {
                assert forall|i: int, k: int| 0 <= i < o2.len() && 0 <= k < o2.len() && i != k
                    implies o2[i] != o2[k] by {
                    let ii = if i < p { i } else { i + 1 };
                    let kk = if k < p { k } else { k + 1 };
                    assert(o2[i] == o[ii] && o2[k] == o[kk]);
                }
            }
            assert forall|t: usize| t < n.len() implies #[trigger] self.slot(t) == old(self).slot(t) by {
            }
            assert(self.entries() =~= old(self).entries().remove(p));
            assert(!o2.contains(s)) by {
                if o2.contains(s) {
                    let k = choose|k: int| 0 <= k < o2.len() && o2[k] == s;
                    if k < p {
                        assert(o[k] == s);
                    } else {
                        assert(o[k + 1] == s);
                    }
                }
            }
            assert(!self.free@.contains(s)) by {
                if self.free@.contains(s) {
                    let j = choose|j: int| 0 <= j < self.free@.len() && self.free@[j] == s;
                    assert(o.contains(s));
                }
            }
        }
    }

    /// Links the detached slot `s` at the most-recent end, stamped with
    /// `epoch`.
    pub fn link_front(&mut self, s: usize, epoch: u64)
        requires
            old(self).wf(),
            old(self).detached(s),
            old(self).consistent(s),
        ensures
            final(self).wf(),
            final(self).order() == seq![s] + old(self).order(),
            final(self).slots() == old(self).slots(),
            final(self).slot(s) == (EntryView { epoch, ..old(self).slot(s) }),
            forall|t: usize| t < old(self).slots() && t != s ==> #[trigger] final(self).slot(t) == old(self).slot(t),
            final(self).entries() == seq![EntryView { epoch, ..old(self).slot(s) }] + old(self).entries(),
    {
        let ghost o = self.order@;
        let first = self.nodes[HEAD].next;
        assert(first != s) by {
            if o.len() > 0 {
                assert(o.contains(o[0]));
            }
        }
        self.nodes[s].epoch = epoch;
        self.nodes[s].prev = HEAD;
        self.nodes[s].next = first;
        self.nodes[HEAD].next = s;
        self.nodes[first].prev = s;
        self.order = Ghost(seq![s] + o);
        proof {
            let n = self.nodes@;
            let o2 = self.order@;
            assert forall|i: int| 0 <= i < o2.len() implies 2 <= #[trigger] o2[i] < n.len() by {
                if i > 0 {
                    assert(o2[i] == o[i - 1]);
                }
            }
            assert forall|i: int| 0 < i < o2.len() implies o2[i] != s by {
                assert(o2[i] == o[i - 1]);
                assert(o.contains(o[i - 1]));
            }
            assert forall|i: int| 0 <= i < o2.len() implies (#[trigger] n[o2[i] as int]).prev == self.prev_slot(i)
                && n[o2[i] as int].next == self.next_slot(i) && n[o2[i] as int].dropped == n[o2[i] as int].val.is_none() by {
                if i > 0 {
                    assert(o2[i] == o[i - 1]);
                    if i > 1 {
                        assert(o[i - 2] != o[i - 1]);
                    }
                    if i < o.len() {
                        assert(o2[i + 1] == o[i]);
                        assert(o[i] != o[i - 1]);
                    }
                }
            }
            assert(o2.no_duplicates()) by {
                assert forall|i: int, k: int| 0 <= i < o2.len() && 0 <= k < o2.len() && i != k
                    implies o2[i] != o2[k] by {
                    if i > 0 && k > 0 {
                        assert(o2[i] == o[i - 1] && o2[k] == o[k - 1]);
                    }
                }
            }
            assert forall|j: int| 0 <= j < self.free@.len() implies 2 <= #[trigger] self.free@[j] < n.len()
                && !o2.contains(self.free@[j]) by {
                assert(self.free@[j] != s);
                if o2.contains(self.free@[j]) {
                    let k = choose|k: int| 0 <= k < o2.len() && o2[k] == self.free@[j];
                    assert(o[k - 1] == o2[k]);
                }
            }
            assert(self.entries() =~= seq![EntryView { epoch, ..old(self).slot(s) }] + old(self).entries()) by {
                assert forall|i: int| 0 < i < o2.len() implies #[trigger] self.slot(o2[i]) == old(self).slot(o[i - 1]) by {
                    assert(o2[i] == o[i - 1]);
                }
            }
        }
    }

    /// A detached slot that holds a new entry: one from the free list if
    /// there is one, else a new slot of the arena.
    pub fn alloc_slot(&mut self, key: u64, val: V, epoch: u64, index: u32) -> (s: usize)
        requires
            old(self).wf(),
        ensures
            final(self).wf(),
            final(self).order() == old(self).order(),
            final(self).slots() >= old(self).slots(),
            final(self).detached(s),
            final(self).consistent(s),
            final(self).slot(s) == (EntryView { key, val: Some(val), epoch, index }),
            forall|t: usize| t < old(self).slots() && t != s ==> #[trigger] final(self).slot(t) == old(self).slot(t),
            final(self).entries() == old(self).entries(),
    {
        let ghost o = self.order@;
        let node = IndexedLruEntry::new(key, val, epoch, index);
        let s = match self.free.pop() {
            Some(s) => {
                proof {
                    let f = old(self).free@;
                    assert(f[f.len() - 1] == s);
                }
                self.nodes[s] = node;
                s
            },
            None => {
                let s = self.nodes.len();
                self.nodes.push(node);
                s
            },
        };
        proof {
            let n = self.nodes@;
            let f = old(self).free@;
            assert forall|i: int| 0 <= i < o.len() implies o[i] != s by {
                if s < old(self).nodes@.len() {
                    assert(f[f.len() - 1] == s);
                    assert(!o.contains(f[f.len() - 1]));
                }
            }
            assert(!o.contains(s));
            assert forall|i: int| 0 <= i < o.len() implies (#[trigger] n[o[i] as int]) == old(self).nodes@[o[i] as int] by {
            }
            assert forall|j: int| 0 <= j < self.free@.len() implies 2 <= #[trigger] self.free@[j] < n.len()
                && !o.contains(self.free@[j]) by {
                assert(self.free@[j] == f[j]);
            }
            assert(self.free@.no_duplicates()) by {
                assert forall|i: int, k: int| 0 <= i < self.free@.len() && 0 <= k < self.free@.len() && i != k
                    implies self.free@[i] != self.free@[k] by {
                    assert(self.free@[i] == f[i] && self.free@[k] == f[k]);
                }
            }
            assert(!self.free@.contains(s)) by {
                if self.free@.contains(s) {
                    let j = choose|j: int| 0 <= j < self.free@.len() && self.free@[j] == s;
                    assert(f[j] == s && f[f.len() - 1] == s);
                }
            }
            assert(self.entries() =~= old(self).entries());
        }
        s
    }

    /// Puts the detached slot `s` on the free list and hands back what it
    /// held.
    pub fn release(&mut self, s: usize) -> (r: (u64, Option<V>))
        requires
            old(self).wf(),
            old(self).detached(s),
        ensures
            final(self).wf(),
            final(self).order() == old(self).order(),
            final(self).slots() == old(self).slots(),
            forall|t: usize| t < old(self).slots() && t != s ==> #[trigger] final(self).slot(t) == old(self).slot(t),
            final(self).entries() == old(self).entries(),
            r == (old(self).slot(s).key, old(self).slot(s).val),
    {
        let ghost o = self.order@;
        let key = self.nodes[s].key;
        let val = self.nodes[s].val.take();
        self.nodes[s].dropped = true;
        self.free.push(s);
        proof {
            let n = self.nodes@;
            let f = old(self).free@;
            assert forall|i: int| 0 <= i < o.len() implies o[i] != s by {
                assert(o.contains(o[i]));
            }
            assert forall|i: int| 0 <= i < o.len() implies (#[trigger] n[o[i] as int]) == old(self).nodes@[o[i] as int] by {
                assert(o[i] != s);
            }
            assert forall|j: int| 0 <= j < self.free@.len() implies 2 <= #[trigger] self.free@[j] < n.len()
                && !o.contains(self.free@[j]) by {
                if j < f.len() {
                    assert(self.free@[j] == f[j]);
                }
            }
            assert(self.free@.no_duplicates()) by {
                assert forall|i: int, k: int| 0 <= i < self.free@.len() && 0 <= k < self.free@.len() && i != k
                    implies self.free@[i] != self.free@[k] by {
                    if i < f.len() && k < f.len() {
                        assert(self.free@[i] == f[i] && self.free@[k] == f[k]);
                    } else if i < f.len() {
                        assert(self.free@[i] == f[i]);
                        assert(f.contains(f[i]));
                    } else if k < f.len() {
                        assert(self.free@[k] == f[k]);
                        assert(f.contains(f[k]));
                    }
                }
            }
            assert(self.entries() =~= old(self).entries()) by {
                assert forall|i: int| 0 <= i < o.len() implies #[trigger] self.slot(o[i]) == old(self).slot(o[i]) by {
                    assert(o[i] != s);
                }
            }
        }
        (key, val)
    }

    /// Re-stamps the linked slot `s`, at position `p`, with bucket `index`.
    pub fn set_index(&mut self, s: usize, index: u32, Ghost(p): Ghost<int>)
        requires
            old(self).wf(),
            old(self).at(s, p),
        ensures
            final(self).wf(),
            final(self).order() == old(self).order(),
            final(self).slots() == old(self).slots(),
            final(self).entries() == old(self).entries().update(p, EntryView { index, ..old(self).entries()[p] }),
    {
        self.nodes[s].index = index;
        proof {
            self.lemma_payload_update(old(self), s, p);
        }
    }

    /// Takes the value out of the linked slot `s`, at position `p`.
    pub fn take_val(&mut self, s: usize, Ghost(p): Ghost<int>) -> (r: Option<V>)
        requires
            old(self).wf(),
            old(self).at(s, p),
        ensures
            final(self).wf(),
            final(self).order() == old(self).order(),
            final(self).slots() == old(self).slots(),
            final(self).entries() == old(self).entries().update(p, EntryView { val: None, ..old(self).entries()[p] }),
            r == old(self).entries()[p].val,
    {
        let r = self.nodes[s].val.take();
        self.nodes[s].dropped = true;
        proof {
            self.lemma_payload_update(old(self), s, p);
        }
        r
    }

    /// Puts `v` into the linked slot `s`, at position `p`, and hands back
    /// the value it held.
    pub fn put_val(&mut self, s: usize, v: V, Ghost(p): Ghost<int>) -> (r: Option<V>)
        requires
            old(self).wf(),
            old(self).at(s, p),
        ensures
            final(self).wf(),
            final(self).order() == old(self).order(),
            final(self).slots() == old(self).slots(),
            final(self).entries() == old(self).entries().update(p, EntryView { val: Some(v), ..old(self).entries()[p] }),
            r == old(self).entries()[p].val,
    {
        let r = self.nodes[s].val.take();
        self.nodes[s].val = Some(v);
        self.nodes[s].dropped = false;
        proof {
            self.lemma_payload_update(old(self), s, p);
        }
        r
    }

    /// Changing the payload of the linked slot at position `p`, and nothing
    /// else, keeps the list well formed and changes one entry.
    proof fn lemma_payload_update(&self, old: &Self, s: usize, p: int)
        requires
            old.wf(),
            old.at(s, p),
            self.order@ == old.order@,
            self.free@ == old.free@,
            self.nodes@.len() == old.nodes@.len(),
            forall|t: int| 0 <= t < self.nodes@.len() && t != s ==> #[trigger] self.nodes@[t] == old.nodes@[t],
            self.nodes@[s as int].prev == old.nodes@[s as int].prev,
            self.nodes@[s as int].next == old.nodes@[s as int].next,
            self.nodes@[s as int].dropped == self.nodes@[s as int].val.is_none(),
        ensures
            self.wf(),
            self.entries() == old.entries().update(p, self.slot(s)),
    {
        let o = self.order@;
        let n = self.nodes@;
        assert forall|i: int| 0 <= i < o.len() implies (#[trigger] n[o[i] as int]).prev == self.prev_slot(i)
            && n[o[i] as int].next == self.next_slot(i) && n[o[i] as int].dropped == n[o[i] as int].val.is_none() by {
            assert(old.nodes@[o[i] as int].prev == old.prev_slot(i));
        }
        assert(self.entries() =~= old.entries().update(p, self.slot(s))) by {
            assert forall|i: int| 0 <= i < o.len() && i != p implies #[trigger] self.slot(o[i]) == old.slot(o[i]) by {
                assert(o[i] != o[p]);
            }
        }
    }

    /// The value of the linked real slot `s`, at position `p`, to change in
    /// place.
    pub fn val_mut(&mut self, s: usize, Ghost(p): Ghost<int>) -> (r: &mut V)
        requires
            old(self).wf(),
            old(self).at(s, p),
            old(self).entries()[p].val.is_some(),
        ensures
            *r == old(self).entries()[p].val.unwrap(),
            final(self).wf(),
            final(self).order() == old(self).order(),
            final(self).slots() == old(self).slots(),
            final(self).entries() == old(self).entries().update(
                p,
                EntryView { val: Some(*final(r)), ..old(self).entries()[p] },
            ),
    {
        proof {
            self.lemma_linked(p);
        }
        let node = &mut self.nodes[s];
        match &mut node.val {
            Some(v) => v,
            None => vstd::pervasive::unreached(),
        }
    }

    /// The value of the linked real slot `s`, at position `p`.
    pub fn val_ref(&self, s: usize, Ghost(p): Ghost<int>) -> (r: &V)
        requires
            self.wf(),
            self.at(s, p),
            self.entries()[p].val.is_some(),
        ensures
            Some(*r) == self.entries()[p].val,
    {
        proof {
            self.lemma_linked(p);
        }
        match &self.nodes[s].val {
            Some(v) => v,
            None => vstd::pervasive::unreached(),
        }
    }
}

} // verus!
