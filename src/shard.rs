//! One shard of the storage engine: a key index, a slot arena, and an
//! index-linked LRU list; the engine changes one shard per call.
//!
//! A shard is modelled by `entries()` (key to value and deadline), `lru()`
//! (keys from least to most recently used) and `used()` (the sum of key and
//! value lengths). Times are monotonic nanoseconds.
use vstd::prelude::*;
use std::sync::Arc;
use crate::resp::append_bytes;
use crate::error::{HkvError, HkvResult};

verus! {

/// ahash's hasher builder; each one carries its own random keys.
#[verifier::external_type_specification]
#[verifier::external_body]
pub struct ExRandomState(ahash::RandomState);

/// Key to slot index, held in a hashbrown map seeded by the engine's
/// hasher. Opaque to the verifier: what it holds is `slot_map`.
#[verifier::external_body]
pub struct SlotIndex {
    map: hashbrown::HashMap<Vec<u8>, usize, ahash::RandomState>,
}

/// What a `SlotIndex` holds.
pub uninterp spec fn slot_map(index: SlotIndex) -> Map<Seq<u8>, usize>;

impl SlotIndex {
    /// Relies on hashbrown's `HashMap::with_hasher`: a new map is empty.
    #[verifier::external_body]
    pub(crate) fn with_hasher(state: ahash::RandomState) -> (r: SlotIndex)
        ensures
            slot_map(r).is_empty(),
    {
        SlotIndex { map: hashbrown::HashMap::with_hasher(state) }
    }

    /// Relies on hashbrown's `HashMap::get`: the index stored under `key`.
    #[verifier::external_body]
    pub(crate) fn get(&self, key: &[u8]) -> (r: Option<usize>)
        ensures
            r matches Some(i) ==> slot_map(*self).contains_key(key@) && slot_map(*self)[key@] == i,
            r is None ==> !slot_map(*self).contains_key(key@),
    {
        self.map.get(key).copied()
    }

    /// Relies on hashbrown's `HashMap::insert`: `key` now maps to `idx`.
    #[verifier::external_body]
    pub(crate) fn insert(&mut self, key: Vec<u8>, idx: usize)
        ensures
            slot_map(*final(self)) == slot_map(*old(self)).insert(key@, idx),
    {
        self.map.insert(key, idx);
    }

    /// Relies on hashbrown's `HashMap::remove`: `key` maps to nothing.
    #[verifier::external_body]
    pub(crate) fn remove(&mut self, key: &[u8])
        ensures
            slot_map(*final(self)) == slot_map(*old(self)).remove(key@),
    {
        self.map.remove(key);
    }
}

/// Relies on `Arc::clone`: the clone points to the same bytes.
#[verifier::external_body]
fn share(value: &Arc<Vec<u8>>) -> (r: Arc<Vec<u8>>)
    ensures
        r@ == value@,
{
    Arc::clone(value)
}

/// What a shard stores under one key.
pub struct EntryView {
    pub value: Seq<u8>,
    pub expires_at: Option<u64>,
}

/// An entry whose deadline is at or before `now` is logically absent.
pub open spec fn expired(e: EntryView, now: u64) -> bool {
    e.expires_at matches Some(t) && now >= t
}

/// One stored entry: the key, the shared value, the deadline and the
/// accounted size.
pub struct Node {
    pub key: Vec<u8>,
    pub value: Arc<Vec<u8>>,
    pub expires_at: Option<u64>,
    pub size: usize,
}

impl Node {
    pub open spec fn view_entry(&self) -> EntryView {
        EntryView { value: self.value@, expires_at: self.expires_at }
    }

    /// True when the entry has expired at `now`.
    pub fn is_expired(&self, now: u64) -> (r: bool)
        ensures
            r == expired(self.view_entry(), now),
    {
        match self.expires_at {
            Some(deadline) => now >= deadline,
            None => false,
        }
    }
}

/// LRU neighbours of a slot.
#[derive(Clone, Copy)]
pub struct Link {
    pub prev: Option<usize>,
    pub next: Option<usize>,
}

/// `order` (oldest first) is a well-linked list over `links`.
pub open spec fn links_wf(links: Seq<Link>, order: Seq<usize>, head: Option<usize>, tail: Option<usize>) -> bool {
    &&& order.no_duplicates()
    &&& forall|k: int| 0 <= k < order.len() ==> #[trigger] order[k] < links.len()
    &&& forall|k: int|
        0 <= k < order.len() ==> (#[trigger] links[order[k] as int]).prev == (if k == 0 {
            None
        } else {
            Some(order[k - 1])
        })
    &&& forall|k: int|
        0 <= k < order.len() ==> (#[trigger] links[order[k] as int]).next == (if k + 1 == order.len() {
            None
        } else {
            Some(order[k + 1])
        })
    &&& head == (if order.len() == 0 {
        None
    } else {
        Some(order[0])
    })
    &&& tail == (if order.len() == 0 {
        None
    } else {
        Some(order.last())
    })
}

/// The sum of the sizes of the slots listed in `order`.
pub open spec fn sum_sizes(slots: Seq<Option<Node>>, order: Seq<usize>) -> int
    decreases order.len(),
{
    if order.len() == 0 {
        0
    } else {
        sum_sizes(slots, order.drop_last()) + slots[order.last() as int]->Some_0.size
    }
}

/// The state of one shard.
pub struct ShardInner {
    map: SlotIndex,
    slots: Vec<Option<Node>>,
    links: Vec<Link>,
    free: Vec<usize>,
    head: Option<usize>,
    tail: Option<usize>,
    order: Ghost<Seq<usize>>,
}

impl ShardInner {
    /// The shard's internal consistency: index, arena, free list and LRU list agree.
    pub closed spec fn wf(&self) -> bool {
        let slots = self.slots@;
        let order = self.order@;
        let m = slot_map(self.map);
        &&& self.links@.len() == slots.len()
        &&& links_wf(self.links@, order, self.head, self.tail)
        &&& forall|k: int| 0 <= k < order.len() ==> (#[trigger] slots[order[k] as int]) is Some
        &&& forall|i: int| 0 <= i < slots.len() && (#[trigger] slots[i]) is Some ==> order.contains(i as usize)
        &&& forall|key: Seq<u8>|
            #[trigger] m.contains_key(key) ==> m[key] < slots.len() && slots[m[key] as int] is Some
                && slots[m[key] as int]->Some_0.key@ == key
        &&& forall|i: int|
            0 <= i < slots.len() && (#[trigger] slots[i]) is Some ==> m.contains_key(slots[i]->Some_0.key@)
                && m[slots[i]->Some_0.key@] == i
        &&& self.free@.no_duplicates()
        &&& forall|j: int|
            0 <= j < self.free@.len() ==> #[trigger] self.free@[j] < slots.len() && slots[self.free@[j] as int] is None
        &&& forall|i: int|
            0 <= i < slots.len() && (#[trigger] slots[i]) is Some ==> slots[i]->Some_0.size == slots[i]->Some_0.key@.len()
                + slots[i]->Some_0.value@.len()
    }

    /// Key to stored entry.
    pub closed spec fn entries(&self) -> Map<Seq<u8>, EntryView> {
        let m = slot_map(self.map);
        Map::new(|k: Seq<u8>| m.contains_key(k), |k: Seq<u8>| self.slots@[m[k] as int]->Some_0.view_entry())
    }

    /// Keys from least to most recently used.
    pub closed spec fn lru(&self) -> Seq<Seq<u8>> {
        self.order@.map_values(|i: usize| self.slots@[i as int]->Some_0.key@)
    }

    /// The sum of key and value lengths of all entries.
    pub closed spec fn used(&self) -> int {
        sum_sizes(self.slots@, self.order@)
    }
}

impl ShardInner {
    /// Detaches the slot at position `p` of the LRU list.
    fn lru_remove(&mut self, idx: usize, Ghost(p): Ghost<int>)
        requires
            links_wf(old(self).links@, old(self).order@, old(self).head, old(self).tail),
            0 <= p < old(self).order@.len(),
            old(self).order@[p] == idx,
        ensures
            links_wf(final(self).links@, final(self).order@, final(self).head, final(self).tail),
            final(self).order@ == old(self).order@.remove(p),
            final(self).links@.len() == old(self).links@.len(),
            final(self).slots == old(self).slots,
            final(self).map == old(self).map,
            final(self).free == old(self).free,
    {
        let ghost o = self.order@;
        let ghost o2 = o.remove(p);
        let ghost old_links = self.links@;
        let l = self.links[idx];
        match l.prev {
            Some(pi) => {
                let mut pl = self.links[pi];
                pl.next = l.next;
                self.links.set(pi, pl);
            },
            None => {
                self.head = l.next;
            },
        }
        match l.next {
            Some(ni) => {
                let mut nl = self.links[ni];
                nl.prev = l.prev;
                self.links.set(ni, nl);
            },
            None => {
                self.tail = l.prev;
            },
        }
        self.links.set(idx, Link { prev: None, next: None });
        self.order = Ghost(o2);
        proof {
            let nl = self.links@;
            assert(forall|a: int, b: int| 0 <= a < o.len() && 0 <= b < o.len() && a != b ==> o[a] != o[b]);
            assert forall|k: int| 0 <= k < o2.len() implies #[trigger] o2[k] < nl.len() by {
                if k < p {
                    assert(o2[k] == o[k]);
                } else {
                    assert(o2[k] == o[k + 1]);
                }
            }
            assert forall|k: int| 0 <= k < o2.len() implies (#[trigger] nl[o2[k] as int]).prev == (if k == 0 {
                None
            } else {
                Some(o2[k - 1])
            }) && nl[o2[k] as int].next == (if k + 1 == o2.len() {
                None
            } else {
                Some(o2[k + 1])
            }) by {
                if k < p {
                    assert(o2[k] == o[k]);
                    if k > 0 {
                        assert(o2[k - 1] == o[k - 1]);
                    }
                    if k + 1 < p {
                        assert(o2[k + 1] == o[k + 1]);
                    } else if k + 1 < o2.len() {
                        assert(o2[k + 1] == o[k + 2]);
                    }
                    assert(old_links[o[k] as int].prev == (if k == 0 { None } else { Some(o[k - 1]) }));
                    assert(old_links[o[k] as int].next == (if k + 1 == o.len() { None } else { Some(o[k + 1]) }));
                } else {
                    assert(o2[k] == o[k + 1]);
                    if k > p {
                        assert(o2[k - 1] == o[k]);
                    } else if k > 0 {
                        assert(o2[k - 1] == o[k - 1]);
                    }
                    if k + 1 < o2.len() {
                        assert(o2[k + 1] == o[k + 2]);
                    }
                    assert(old_links[o[k + 1] as int].prev == Some(o[k]));
                    assert(old_links[o[k + 1] as int].next == (if k + 2 == o.len() { None } else { Some(o[k + 2]) }));
                }
            }
            assert(o2.no_duplicates()) by {
                assert forall|a: int, b: int| 0 <= a < o2.len() && 0 <= b < o2.len() && a != b implies o2[a] != o2[b] by {
                    let a1 = if a < p { a } else { a + 1 };
                    let b1 = if b < p { b } else { b + 1 };
                    assert(o2[a] == o[a1]);
                    assert(o2[b] == o[b1]);
                }
            }
            if o2.len() > 0 {
                if p == 0 {
                    assert(o2[0] == o[1]);
                } else {
                    assert(o2[0] == o[0]);
                }
                if p == o.len() - 1 {
                    assert(o2.last() == o[p - 1]);
                } else {
                    assert(o2.last() == o.last());
                }
            }
        }
    }

    /// Appends `idx` to the LRU list as the most recently used slot.
    fn lru_push_back(&mut self, idx: usize)
        requires
            links_wf(old(self).links@, old(self).order@, old(self).head, old(self).tail),
            idx < old(self).links@.len(),
            !old(self).order@.contains(idx),
        ensures
            links_wf(final(self).links@, final(self).order@, final(self).head, final(self).tail),
            final(self).order@ == old(self).order@.push(idx),
            final(self).links@.len() == old(self).links@.len(),
            final(self).slots == old(self).slots,
            final(self).map == old(self).map,
            final(self).free == old(self).free,
    {
        let ghost o = self.order@;
        let ghost o2 = o.push(idx);
        let ghost old_links = self.links@;
        let tail = self.tail;
        self.links.set(idx, Link { prev: tail, next: None });
        match tail {
            Some(t) => {
                let mut tl = self.links[t];
                tl.next = Some(idx);
                self.links.set(t, tl);
            },
            None => {
                self.head = Some(idx);
            },
        }
        self.tail = Some(idx);
        self.order = Ghost(o2);
        proof {
            let nl = self.links@;
            assert forall|k: int| 0 <= k < o2.len() implies #[trigger] o2[k] < nl.len() by {
                if k < o.len() {
                    assert(o2[k] == o[k]);
                }
            }
            assert forall|k: int| 0 <= k < o2.len() implies (#[trigger] nl[o2[k] as int]).prev == (if k == 0 {
                None
            } else {
                Some(o2[k - 1])
            }) && nl[o2[k] as int].next == (if k + 1 == o2.len() {
                None
            } else {
                Some(o2[k + 1])
            }) by {
                if k < o.len() {
                    assert(o2[k] == o[k]);
                    assert(o[k] != idx);
                    if k > 0 {
                        assert(o2[k - 1] == o[k - 1]);
                    }
                    if k + 1 < o.len() {
                        assert(o2[k + 1] == o[k + 1]);
                    }
                    assert(old_links[o[k] as int].prev == (if k == 0 { None } else { Some(o[k - 1]) }));
                    assert(old_links[o[k] as int].next == (if k + 1 == o.len() { None } else { Some(o[k + 1]) }));
                } else {
                    if k > 0 {
                        assert(o2[k - 1] == o.last());
                    }
                }
            }
            assert(o2.no_duplicates()) by {
                assert forall|a: int, b: int| 0 <= a < o2.len() && 0 <= b < o2.len() && a != b implies o2[a] != o2[b] by {
                    if a < o.len() && b < o.len() {
                    } else if a < o.len() {
                        assert(o2[a] == o[a]);
                    } else if b < o.len() {
                        assert(o2[b] == o[b]);
                    }
                }
            }
            if o.len() > 0 {
                assert(o2[0] == o[0]);
            }
        }
    }
}

/// A copy of `v`.
pub fn copy_bytes(v: &Vec<u8>) -> (r: Vec<u8>)
    ensures
        r@ == v@,
{
    let mut out: Vec<u8> = Vec::new();
    append_bytes(&mut out, v.as_slice());
    assert(out@ == Seq::<u8>::empty() + v@);
    out
}

proof fn lemma_sum_remove(slots: Seq<Option<Node>>, o: Seq<usize>, p: int)
    requires
        0 <= p < o.len(),
    ensures
        sum_sizes(slots, o.remove(p)) == sum_sizes(slots, o) - slots[o[p] as int]->Some_0.size,
    decreases o.len(),
{
    if p == o.len() - 1 {
        assert(o.remove(p) =~= o.drop_last());
    } else {
        let o1 = o.drop_last();
        lemma_sum_remove(slots, o1, p);
        assert(o.remove(p).drop_last() =~= o1.remove(p));
        assert(o.remove(p).last() == o.last());
        assert(o1[p] == o[p]);
    }
}

proof fn lemma_sum_frame(slots: Seq<Option<Node>>, slots2: Seq<Option<Node>>, o: Seq<usize>)
    requires
        forall|k: int| 0 <= k < o.len() ==> slots2[#[trigger] o[k] as int]->Some_0.size == slots[o[k] as int]->Some_0.size,
    ensures
        sum_sizes(slots2, o) == sum_sizes(slots, o),
    decreases o.len(),
{
    if o.len() > 0 {
        let o1 = o.drop_last();
        assert forall|k: int| 0 <= k < o1.len() implies slots2[#[trigger] o1[k] as int]->Some_0.size == slots[o1[k] as int]->Some_0.size by {
            assert(o1[k] == o[k]);
        }
        lemma_sum_frame(slots, slots2, o1);
        assert(o.last() == o[o.len() - 1]);
    }
}

proof fn lemma_sum_nonneg(slots: Seq<Option<Node>>, o: Seq<usize>)
    ensures
        sum_sizes(slots, o) >= 0,
    decreases o.len(),
{
    if o.len() > 0 {
        lemma_sum_nonneg(slots, o.drop_last());
    }
}

impl ShardInner {
    /// Creates an empty shard whose index hashes with `hash_state`.
    pub fn new(hash_state: ahash::RandomState) -> (r: ShardInner)
        ensures
            r.wf(),
            r.entries().is_empty(),
            r.lru().len() == 0,
            r.used() == 0,
    {
        let r = ShardInner {
            map: SlotIndex::with_hasher(hash_state),
            slots: Vec::new(),
            links: Vec::new(),
            free: Vec::new(),
            head: None,
            tail: None,
            order: Ghost(Seq::empty()),
        };
        assert(r.entries() =~= Map::<Seq<u8>, EntryView>::empty());
        r
    }

    /// In a well-formed shard the LRU list holds each key once, and exactly
    /// the stored keys.
    pub proof fn lemma_wf_view(&self)
        requires
            self.wf(),
        ensures
            self.lru().no_duplicates(),
            forall|k: Seq<u8>| self.lru().contains(k) <==> #[trigger] self.entries().contains_key(k),
            self.used() >= 0,
            self.lru().len() == 0 <==> self.entries().is_empty(),
            self.lru().len() == 0 ==> self.used() == 0,
    {
        lemma_sum_nonneg(self.slots@, self.order@);
        let o = self.order@;
        let l = self.lru();
        let m = slot_map(self.map);
        assert forall|a: int, b: int| 0 <= a < l.len() && 0 <= b < l.len() && a != b implies l[a] != l[b] by {
            assert(self.slots@[o[a] as int] is Some);
            assert(self.slots@[o[b] as int] is Some);
            assert(o[a] != o[b]);
        }
        assert forall|k: Seq<u8>| l.contains(k) <==> #[trigger] self.entries().contains_key(k) by {
            if l.contains(k) {
                let a = choose|a: int| 0 <= a < l.len() && l[a] == k;
                assert(self.slots@[o[a] as int] is Some);
            }
            if m.contains_key(k) {
                let idx = m[k];
                assert(self.slots@[idx as int] is Some);
                assert(o.contains(idx));
                let a = choose|a: int| 0 <= a < o.len() && o[a] == idx;
                assert(l[a] == k);
            }
        }
        if l.len() == 0 {
            assert(self.entries().dom() =~= Set::<Seq<u8>>::empty()) by {
                assert forall|k: Seq<u8>| !self.entries().dom().contains(k) by {
                    if self.entries().contains_key(k) {
                        assert(l.contains(k));
                    }
                }
            }
        } else {
            assert(l.contains(l[0]));
            assert(self.entries().dom().contains(l[0]));
        }
    }
}

impl ShardInner {
    /// Removes the entry in slot `idx`, returning its size; `None` for a
    /// vacant slot.
    fn remove_idx(&mut self, idx: usize) -> (r: Option<usize>)
        requires
            old(self).wf(),
            idx < old(self).slots@.len(),
        ensures
            final(self).wf(),
            old(self).slots@[idx as int] is None ==> r is None && *final(self) == *old(self),
            final(self).slots@ == old(self).slots@.update(idx as int, None),
            slot_map(final(self).map) == slot_map(old(self).map).remove(old(self).slots@[idx as int]->Some_0.key@)
                || old(self).slots@[idx as int] is None,
            old(self).slots@[idx as int] matches Some(n) ==> {
                let p = old(self).order@.index_of(idx);
                &&& 0 <= p < old(self).order@.len()
                &&& old(self).order@[p] == idx
                &&& r == Some(n.size)
                &&& n.size == n.key@.len() + n.value@.len()
                &&& final(self).entries() == old(self).entries().remove(n.key@)
                &&& final(self).lru() == old(self).lru().remove(p)
                &&& final(self).used() == old(self).used() - n.size
            },
    {
        let (key, size) = match &self.slots[idx] {
            Some(node) => (copy_bytes(&node.key), node.size),
            None => return None,
        };
        let ghost old_self = *self;
        let ghost o = self.order@;
        let ghost slots = self.slots@;
        let ghost m = slot_map(self.map);
        let ghost k = key@;
        proof {
            assert(o.contains(idx));
        }
        let ghost p = o.index_of(idx);
        self.lru_remove(idx, Ghost(p));
        self.slots.set(idx, None);
        self.map.remove(key.as_slice());
        self.free.push(idx);
        proof {
            let o2 = self.order@;
            let slots2 = self.slots@;
            let m2 = slot_map(self.map);
            assert(forall|a: int, b: int| 0 <= a < o.len() && 0 <= b < o.len() && a != b ==> o[a] != o[b]);
            assert forall|a: int| 0 <= a < o2.len() implies #[trigger] o2[a] != idx && o2[a] == (if a < p { o[a] } else { o[a + 1] }) by {
                if a < p {
                    assert(o2[a] == o[a]);
                } else {
                    assert(o2[a] == o[a + 1]);
                }
            }
            assert forall|a: int| 0 <= a < o2.len() implies (#[trigger] slots2[o2[a] as int]) is Some by {
                assert(o2[a] != idx);
                if a < p {
                    assert(slots[o[a] as int] is Some);
                } else {
                    assert(slots[o[a + 1] as int] is Some);
                }
            }
            assert forall|i: int| 0 <= i < slots2.len() && (#[trigger] slots2[i]) is Some implies o2.contains(i as usize) by {
                assert(i != idx);
                assert(slots[i] is Some);
                assert(o.contains(i as usize));
                let a = choose|a: int| 0 <= a < o.len() && o[a] == i as usize;
                assert(a != p);
                if a < p {
                    assert(o2[a] == i as usize);
                } else {
                    assert(o2[a - 1] == i as usize);
                }
            }
            assert forall|key2: Seq<u8>| #[trigger] m2.contains_key(key2) implies m2[key2] < slots2.len() && slots2[m2[key2] as int] is Some
                && slots2[m2[key2] as int]->Some_0.key@ == key2 by {
                assert(m.contains_key(key2));
                assert(key2 != k);
                assert(m[key2] != idx);
            }
            assert forall|i: int| 0 <= i < slots2.len() && (#[trigger] slots2[i]) is Some implies m2.contains_key(slots2[i]->Some_0.key@)
                && m2[slots2[i]->Some_0.key@] == i by {
                assert(i != idx);
                assert(slots[i] is Some);
                assert(slots[i]->Some_0.key@ != k);
            }
            assert forall|j: int| 0 <= j < self.free@.len() implies #[trigger] self.free@[j] < slots2.len() && slots2[self.free@[j] as int] is None by {
                if j < old_self.free@.len() {
                    assert(self.free@[j] == old_self.free@[j]);
                }
            }
            assert(self.free@.no_duplicates()) by {
                assert forall|a: int, b: int| 0 <= a < self.free@.len() && 0 <= b < self.free@.len() && a != b implies self.free@[a] != self.free@[b] by {
                    if a < old_self.free@.len() {
                        assert(slots[old_self.free@[a] as int] is None);
                    }
                    if b < old_self.free@.len() {
                        assert(slots[old_self.free@[b] as int] is None);
                    }
                }
            }
            assert(self.wf());
            assert(self.entries() =~= old_self.entries().remove(k)) by {
                assert forall|key2: Seq<u8>| #[trigger] m2.contains_key(key2) implies m2[key2] != idx by {
                    assert(m.contains_key(key2));
                    assert(key2 != k);
                }
            }
            assert(self.lru() =~= old_self.lru().remove(p));
            lemma_sum_frame(slots, slots2, o2);
            lemma_sum_remove(slots, o, p);
        }
        Some(size)
    }
}

impl ShardInner {
    /// Installs a new entry in a free or fresh slot and makes it the most
    /// recently used; returns its slot.
    fn insert_new(&mut self, key: Vec<u8>, value: Arc<Vec<u8>>, size: usize) -> (idx: usize)
        requires
            old(self).wf(),
            !old(self).entries().contains_key(key@),
            size == key@.len() + value@.len(),
        ensures
            final(self).wf(),
            final(self).entries() == old(self).entries().insert(key@, EntryView { value: value@, expires_at: None }),
            final(self).lru() == old(self).lru().push(key@),
            final(self).used() == old(self).used() + size,
    {
        let ghost old_self = *self;
        let idx = match self.free.pop() {
            Some(i) => i,
            None => {
                self.slots.push(None);
                self.links.push(Link { prev: None, next: None });
                self.slots.len() - 1
            },
        };
        let ghost o = self.order@;
        let ghost slots = self.slots@;
        let ghost m = slot_map(self.map);
        proof {
            assert(slots[idx as int] is None);
            assert(forall|j: int| 0 <= j < self.free@.len() ==> self.free@[j] == old_self.free@[j]);
            assert(forall|i: int| 0 <= i < old_self.slots@.len() ==> slots[i] == old_self.slots@[i]);
            assert(forall|k: int| 0 <= k < o.len() ==> self.links@[o[k] as int] == old_self.links@[o[k] as int]);
            assert(!o.contains(idx)) by {
                if o.contains(idx) {
                    let a = choose|a: int| 0 <= a < o.len() && o[a] == idx;
                    assert(old_self.slots@[o[a] as int] is Some);
                }
            }
        }
        let map_key = copy_bytes(&key);
        let ghost k = key@;
        let ghost n = Node { key, value, expires_at: None, size };
        self.slots.set(idx, Some(Node { key, value, expires_at: None, size }));
        self.lru_push_back(idx);
        self.map.insert(map_key, idx);
        proof {
            let o2 = self.order@;
            let slots2 = self.slots@;
            let m2 = slot_map(self.map);
            assert(o2 == o.push(idx));
            assert forall|a: int| 0 <= a < o2.len() implies (#[trigger] slots2[o2[a] as int]) is Some by {
                if a < o.len() {
                    assert(o2[a] == o[a]);
                }
            }
            assert forall|i: int| 0 <= i < slots2.len() && (#[trigger] slots2[i]) is Some implies o2.contains(i as usize) by {
                if i == idx {
                    assert(o2[o.len() as int] == idx);
                } else {
                    assert(slots[i] is Some);
                    let a = choose|a: int| 0 <= a < o.len() && o[a] == i as usize;
                    assert(o2[a] == i as usize);
                }
            }
            assert forall|key2: Seq<u8>| #[trigger] m2.contains_key(key2) implies m2[key2] < slots2.len() && slots2[m2[key2] as int] is Some
                && slots2[m2[key2] as int]->Some_0.key@ == key2 by {
                if key2 != k {
                    assert(m.contains_key(key2));
                    assert(m[key2] != idx);
                }
            }
            assert forall|i: int| 0 <= i < slots2.len() && (#[trigger] slots2[i]) is Some implies m2.contains_key(slots2[i]->Some_0.key@)
                && m2[slots2[i]->Some_0.key@] == i by {
                if i != idx {
                    assert(slots[i] is Some);
                    assert(m.contains_key(slots[i]->Some_0.key@));
                    assert(slots[i]->Some_0.key@ != k);
                }
            }
            assert forall|j: int| 0 <= j < self.free@.len() implies #[trigger] self.free@[j] < slots2.len() && slots2[self.free@[j] as int] is None by {
                assert(self.free@[j] == old_self.free@[j]);
                if old_self.free.len() > 0 {
                    assert(old_self.free@.last() == idx);
                    assert(j != old_self.free@.len() - 1);
                }
            }
            assert(self.free@.no_duplicates()) by {
                assert forall|a: int, b: int| 0 <= a < self.free@.len() && 0 <= b < self.free@.len() && a != b implies self.free@[a] != self.free@[b] by {
                    assert(self.free@[a] == old_self.free@[a]);
                    assert(self.free@[b] == old_self.free@[b]);
                }
            }
            assert(self.wf());
            assert(self.entries() =~= old_self.entries().insert(k, EntryView { value: n.value@, expires_at: None })) by {
                assert forall|key2: Seq<u8>| #[trigger] m2.contains_key(key2) && key2 != k implies m2[key2] == m[key2] && m[key2] != idx
                    && m[key2] < old_self.slots@.len() by {
                    assert(m.contains_key(key2));
                }
            }
            assert(self.lru() =~= old_self.lru().push(k)) by {
                assert forall|a: int| 0 <= a < o.len() implies slots2[#[trigger] o[a] as int] == old_self.slots@[o[a] as int] by {
                    assert(old_self.slots@[o[a] as int] is Some);
                }
            }
            assert forall|a: int| 0 <= a < o.len() implies slots2[#[trigger] o[a] as int]->Some_0.size == old_self.slots@[o[a] as int]->Some_0.size by {
                assert(old_self.slots@[o[a] as int] is Some);
            }
            lemma_sum_frame(old_self.slots@, slots2, o);
            assert(o2.drop_last() == o);
        }
        idx
    }

    /// Makes the slot at position `p` of the LRU list the most recently used.
    fn touch(&mut self, idx: usize, Ghost(p): Ghost<int>)
        requires
            old(self).wf(),
            0 <= p < old(self).order@.len(),
            old(self).order@[p] == idx,
        ensures
            final(self).wf(),
            final(self).entries() == old(self).entries(),
            final(self).lru() == old(self).lru().remove(p).push(old(self).lru()[p]),
            final(self).used() == old(self).used(),
    {
        let ghost old_self = *self;
        let ghost o = self.order@;
        let ghost slots = self.slots@;
        proof {
            assert(forall|a: int, b: int| 0 <= a < o.len() && 0 <= b < o.len() && a != b ==> o[a] != o[b]);
            lemma_sum_remove(slots, o, p);
        }
        match self.tail {
            Some(t) => {
                if t == idx {
                    proof {
                        assert(p == o.len() - 1);
                        assert(o.remove(p).push(idx) =~= o);
                        assert(old_self.lru().remove(p).push(old_self.lru()[p]) =~= old_self.lru());
                    }
                    return;
                }
            },
            None => {},
        }
        self.lru_remove(idx, Ghost(p));
        proof {
            assert(!self.order@.contains(idx)) by {
                if self.order@.contains(idx) {
                    let a = choose|a: int| 0 <= a < self.order@.len() && self.order@[a] == idx;
                    if a < p {
                        assert(self.order@[a] == o[a]);
                    } else {
                        assert(self.order@[a] == o[a + 1]);
                    }
                }
            }
        }
        self.lru_push_back(idx);
        proof {
            let o2 = self.order@;
            assert(o2 == o.remove(p).push(idx));
            assert forall|a: int| 0 <= a < o2.len() implies (#[trigger] slots[o2[a] as int]) is Some by {
                if a < p {
                    assert(o2[a] == o[a]);
                } else if a < o.len() - 1 {
                    assert(o2[a] == o[a + 1]);
                }
            }
            assert forall|i: int| 0 <= i < slots.len() && (#[trigger] slots[i]) is Some implies o2.contains(i as usize) by {
                let a = choose|a: int| 0 <= a < o.len() && o[a] == i as usize;
                if a < p {
                    assert(o2[a] == i as usize);
                } else if a == p {
                    assert(o2[o.len() - 1] == i as usize);
                } else {
                    assert(o2[a - 1] == i as usize);
                }
            }
            assert(self.wf());
            assert(self.entries() =~= old_self.entries());
            assert(self.lru() =~= old_self.lru().remove(p).push(old_self.lru()[p]));
            assert(o2.drop_last() == o.remove(p));
        }
    }
}

/// Bytes accounted for an entry: key length plus value length.
pub open spec fn entry_size(k: Seq<u8>, e: EntryView) -> int {
    (k.len() + e.value.len()) as int
}

/// The deadline `ttl` nanoseconds after `now`, saturating.
pub open spec fn deadline(now: u64, ttl: u64) -> u64 {
    if now + ttl > u64::MAX {
        u64::MAX
    } else {
        (now + ttl) as u64
    }
}

/// Sum of a run of sizes.
pub open spec fn seq_sum(s: Seq<usize>) -> int
    decreases s.len(),
{
    if s.len() == 0 {
        0
    } else {
        seq_sum(s.drop_last()) + s.last()
    }
}

/// Remaining lifetime of a key as the shard sees it.
#[derive(Debug, Clone, Copy, PartialEq, Eq, Structural)]
pub enum ShardTtl {
    /// Missing or expired.
    Missing,
    /// Stored without a deadline.
    NoExpiry,
    /// Stored; expires in this many nanoseconds.
    ExpiresIn(u64),
}

impl ShardInner {
    proof fn lemma_slot_of(&self, key: Seq<u8>)
        requires
            self.wf(),
            self.entries().contains_key(key),
        ensures
            ({
                let idx = slot_map(self.map)[key];
                let p = self.order@.index_of(idx);
                &&& idx < self.slots@.len()
                &&& self.slots@[idx as int] is Some
                &&& self.slots@[idx as int]->Some_0.key@ == key
                &&& self.entries()[key] == self.slots@[idx as int]->Some_0.view_entry()
                &&& 0 <= p < self.order@.len()
                &&& self.order@[p] == idx
                &&& self.lru()[p] == key
                &&& self.lru().index_of(key) == p
            }),
    {
        let idx = slot_map(self.map)[key];
        assert(self.order@.contains(idx));
        let p = self.order@.index_of(idx);
        self.lemma_wf_view();
        let l = self.lru();
        assert(l[p] == key);
        assert(l.contains(key));
        let q = l.index_of(key);
        assert(l[q] == key);
    }

    /// A stored entry's size fits a `usize`.
    pub proof fn lemma_entry_size_fits(&self, key: Seq<u8>)
        requires
            self.wf(),
            self.entries().contains_key(key),
        ensures
            0 <= entry_size(key, self.entries()[key]) <= usize::MAX,
    {
        self.lemma_slot_of(key);
        let idx = slot_map(self.map)[key];
        assert(self.slots@[idx as int] is Some);
    }

    /// Looks `key` up at time `now`: a live entry's value is returned and
    /// becomes the most recently used; an expired one is removed, and its
    /// size comes back as the second component.
    pub fn get_at(&mut self, key: &[u8], now: u64) -> (r: (Option<Arc<Vec<u8>>>, Option<usize>))
        requires
            old(self).wf(),
        ensures
            final(self).wf(),
            model_get(old(self).entries(), key@, now) == (final(self).entries(), match r.0 {
                Some(v) => Some(v@),
                None => None::<Seq<u8>>,
            }),
            ({
                let e = old(self).entries();
                let l = old(self).lru();
                let k = key@;
                if !e.contains_key(k) {
                    &&& r.0 is None && r.1 is None
                    &&& final(self).entries() == e && final(self).lru() == l
                    &&& final(self).used() == old(self).used()
                } else if expired(e[k], now) {
                    &&& r.0 is None && r.1 == Some(entry_size(k, e[k]) as usize)
                    &&& final(self).entries() == e.remove(k)
                    &&& final(self).lru() == l.remove(l.index_of(k))
                    &&& final(self).used() == old(self).used() - entry_size(k, e[k])
                } else {
                    &&& r.0 matches Some(v) && v@ == e[k].value
                    &&& r.1 is None
                    &&& final(self).entries() == e
                    &&& final(self).lru() == l.remove(l.index_of(k)).push(k)
                    &&& final(self).used() == old(self).used()
                }
            }),
    {
        let idx = match self.map.get(key) {
            Some(i) => i,
            None => return (None, None),
        };
        proof {
            self.lemma_slot_of(key@);
        }
        let ghost p = self.order@.index_of(idx);
        let expired_now = match &self.slots[idx] {
            Some(node) => node.is_expired(now),
            None => false,
        };
        if expired_now {
            let freed = self.remove_idx(idx);
            return (None, freed);
        }
        let value = match &self.slots[idx] {
            Some(node) => share(&node.value),
            None => return (None, None),
        };
        self.touch(idx, Ghost(p));
        (Some(value), None)
    }

    /// Stores `value` under `key` with no deadline, as the most recently
    /// used entry. Returns the bytes freed and the bytes added, for the
    /// engine's global count.
    pub fn set_at(&mut self, key: Vec<u8>, value: Vec<u8>, now: u64) -> (r: (usize, usize))
        requires
            old(self).wf(),
            key@.len() + value@.len() <= usize::MAX,
        ensures
            final(self).wf(),
            final(self).entries() == model_set(old(self).entries(), key@, value@),
            ({
                let e = old(self).entries();
                let l = old(self).lru();
                let k = key@;
                let n = k.len() + value@.len();
                &&& final(self).entries() == e.insert(k, EntryView { value: value@, expires_at: None })
                &&& final(self).lru() == (if e.contains_key(k) {
                    l.remove(l.index_of(k)).push(k)
                } else {
                    l.push(k)
                })
                &&& final(self).used() == old(self).used() - r.0 + r.1
                &&& if !e.contains_key(k) {
                    r == (0usize, n as usize)
                } else if expired(e[k], now) {
                    r == (entry_size(k, e[k]) as usize, n as usize)
                } else if n >= entry_size(k, e[k]) {
                    r == (0usize, (n - entry_size(k, e[k])) as usize)
                } else {
                    r == ((entry_size(k, e[k]) - n) as usize, 0usize)
                }
            }),
    {
        let ghost l = self.lru();
        let ghost k = key@;
        let new_size = key.len() + value.len();
        let mut freed: usize = 0;
        if let Some(idx) = self.map.get(key.as_slice()) {
            proof {
                self.lemma_slot_of(key@);
            }
            let ghost p = self.order@.index_of(idx);
            let expired_now = match &self.slots[idx] {
                Some(node) => node.is_expired(now),
                None => false,
            };
            if expired_now {
                match self.remove_idx(idx) {
                    Some(size) => {
                        freed = size;
                    },
                    None => {},
                }
            } else {
                let old_size = self.replace_value(idx, Arc::new(value), new_size);
                proof {
                    assert(self.lru() == l);
                    self.lemma_slot_of(k);
                }
                self.touch(idx, Ghost(p));
                if new_size > old_size {
                    return (0, new_size - old_size);
                } else {
                    return (old_size - new_size, 0);
                }
            }
        }
        self.insert_new(key, Arc::new(value), new_size);
        (freed, new_size)
    }
}

proof fn lemma_sum_update(slots: Seq<Option<Node>>, o: Seq<usize>, idx: usize, n: Node)
    requires
        o.no_duplicates(),
        o.contains(idx),
        0 <= idx < slots.len(),
        forall|k: int| 0 <= k < o.len() ==> #[trigger] o[k] < slots.len(),
    ensures
        sum_sizes(slots.update(idx as int, Some(n)), o) == sum_sizes(slots, o) - slots[idx as int]->Some_0.size + n.size,
    decreases o.len(),
{
    let s2 = slots.update(idx as int, Some(n));
    let o1 = o.drop_last();
    if o.last() == idx {
        assert(!o1.contains(idx)) by {
            if o1.contains(idx) {
                let a = choose|a: int| 0 <= a < o1.len() && o1[a] == idx;
                assert(o[a] == o[o.len() - 1]);
            }
        }
        assert forall|k: int| 0 <= k < o1.len() implies s2[#[trigger] o1[k] as int]->Some_0.size == slots[o1[k] as int]->Some_0.size by {
            assert(o1[k] == o[k]);
            assert(o1[k] != idx);
        }
        lemma_sum_frame(slots, s2, o1);
    } else {
        assert(o1.no_duplicates());
        assert(forall|k: int| 0 <= k < o1.len() ==> #[trigger] o1[k] == o[k]);
        let a = choose|a: int| 0 <= a < o.len() && o[a] == idx;
        assert(o1[a] == idx);
        lemma_sum_update(slots, o1, idx, n);
    }
}

impl ShardInner {
    /// Replaces the value of the live entry in slot `idx` and clears its
    /// deadline; returns the entry's former size.
    fn replace_value(&mut self, idx: usize, value: Arc<Vec<u8>>, size: usize) -> (r: usize)
        requires
            old(self).wf(),
            idx < old(self).slots@.len(),
            old(self).slots@[idx as int] is Some,
            size == old(self).slots@[idx as int]->Some_0.key@.len() + value@.len(),
        ensures
            final(self).wf(),
            ({
                let k = old(self).slots@[idx as int]->Some_0.key@;
                &&& final(self).entries() == old(self).entries().insert(k, EntryView { value: value@, expires_at: None })
                &&& r == old(self).slots@[idx as int]->Some_0.size
                &&& final(self).used() == old(self).used() - r + size
            }),
            final(self).order == old(self).order,
            final(self).map == old(self).map,
            final(self).lru() == old(self).lru(),
    {
        let ghost old_self = *self;
        let mut slot: Option<Node> = None;
        self.slots.set_and_swap(idx, &mut slot);
        match slot {
            Some(node) => {
                let old_size = node.size;
                let updated = Node { key: node.key, value, expires_at: None, size };
                let ghost n = updated;
                self.slots.set(idx, Some(updated));
                proof {
                    let slots = old_self.slots@;
                    let slots2 = self.slots@;
                    let m = slot_map(self.map);
                    let k = slots[idx as int]->Some_0.key@;
                    assert(slots2 == slots.update(idx as int, Some(n)));
                    assert(self.wf());
                    assert(self.entries() =~= old_self.entries().insert(k, EntryView { value: n.value@, expires_at: None }));
                    assert(self.lru() =~= old_self.lru());
                    assert(self.order@.contains(idx));
                    lemma_sum_update(slots, self.order@, idx, n);
                }
                old_size
            },
            None => 0,
        }
    }
}

impl ShardInner {
    /// Sets the deadline of the live entry in slot `idx`.
    fn set_deadline(&mut self, idx: usize, at: u64)
        requires
            old(self).wf(),
            idx < old(self).slots@.len(),
            old(self).slots@[idx as int] is Some,
        ensures
            final(self).wf(),
            ({
                let n = old(self).slots@[idx as int]->Some_0;
                final(self).entries() == old(self).entries().insert(n.key@, EntryView { value: n.value@, expires_at: Some(at) })
            }),
            final(self).lru() == old(self).lru(),
            final(self).used() == old(self).used(),
    {
        let ghost old_self = *self;
        let mut slot: Option<Node> = None;
        self.slots.set_and_swap(idx, &mut slot);
        match slot {
            Some(node) => {
                let updated = Node { key: node.key, value: node.value, expires_at: Some(at), size: node.size };
                let ghost n = updated;
                self.slots.set(idx, Some(updated));
                proof {
                    let slots = old_self.slots@;
                    let k = slots[idx as int]->Some_0.key@;
                    assert(self.slots@ == slots.update(idx as int, Some(n)));
                    assert(self.wf());
                    assert(self.entries() =~= old_self.entries().insert(k, EntryView { value: n.value@, expires_at: Some(at) }));
                    assert(self.lru() =~= old_self.lru());
                    assert(self.order@.contains(idx));
                    lemma_sum_update(slots, self.order@, idx, n);
                }
            },
            None => {},
        }
    }

    /// Deletes `key` at time `now`. The first component is true iff a live
    /// entry was removed; an expired entry is removed too, but reports
    /// false. The second is the size of what was removed.
    pub fn delete_at(&mut self, key: &[u8], now: u64) -> (r: (bool, Option<usize>))
        requires
            old(self).wf(),
        ensures
            final(self).wf(),
            model_delete(old(self).entries(), key@, now) == (final(self).entries(), r.0),
            ({
                let e = old(self).entries();
                let l = old(self).lru();
                let k = key@;
                if !e.contains_key(k) {
                    &&& r == (false, None::<usize>)
                    &&& final(self).entries() == e && final(self).lru() == l
                    &&& final(self).used() == old(self).used()
                } else {
                    &&& r.0 == !expired(e[k], now)
                    &&& r.1 == Some(entry_size(k, e[k]) as usize)
                    &&& final(self).entries() == e.remove(k)
                    &&& final(self).lru() == l.remove(l.index_of(k))
                    &&& final(self).used() == old(self).used() - entry_size(k, e[k])
                }
            }),
    {
        let idx = match self.map.get(key) {
            Some(i) => i,
            None => return (false, None),
        };
        proof {
            self.lemma_slot_of(key@);
        }
        let expired_now = match &self.slots[idx] {
            Some(node) => node.is_expired(now),
            None => false,
        };
        let freed = self.remove_idx(idx);
        (!expired_now, freed)
    }

    /// Gives `key` the deadline `ttl` nanoseconds after `now`. A missing or
    /// expired key is `NotFound`; an expired one is also removed, and its
    /// size comes back as the second component. The LRU order is kept.
    pub fn expire_at(&mut self, key: &[u8], ttl: u64, now: u64) -> (r: (HkvResult<()>, Option<usize>))
        requires
            old(self).wf(),
        ensures
            final(self).wf(),
            model_expire(old(self).entries(), key@, ttl, now) == (final(self).entries(), r.0 is Ok),
            ({
                let e = old(self).entries();
                let l = old(self).lru();
                let k = key@;
                if !e.contains_key(k) {
                    &&& r == (Err::<(), HkvError>(HkvError::NotFound), None::<usize>)
                    &&& final(self).entries() == e && final(self).lru() == l
                    &&& final(self).used() == old(self).used()
                } else if expired(e[k], now) {
                    &&& r == (Err::<(), HkvError>(HkvError::NotFound), Some(entry_size(k, e[k]) as usize))
                    &&& final(self).entries() == e.remove(k)
                    &&& final(self).lru() == l.remove(l.index_of(k))
                    &&& final(self).used() == old(self).used() - entry_size(k, e[k])
                } else {
                    &&& r == (Ok::<(), HkvError>(()), None::<usize>)
                    &&& final(self).entries() == e.insert(k, EntryView { value: e[k].value, expires_at: Some(deadline(now, ttl)) })
                    &&& final(self).lru() == l
                    &&& final(self).used() == old(self).used()
                }
            }),
    {
        let idx = match self.map.get(key) {
            Some(i) => i,
            None => return (Err(HkvError::NotFound), None),
        };
        proof {
            self.lemma_slot_of(key@);
        }
        let expired_now = match &self.slots[idx] {
            Some(node) => node.is_expired(now),
            None => false,
        };
        if expired_now {
            let freed = self.remove_idx(idx);
            return (Err(HkvError::NotFound), freed);
        }
        let at = now.saturating_add(ttl);
        self.set_deadline(idx, at);
        (Ok(()), None)
    }

    /// The remaining lifetime of `key` at time `now`; an expired entry is
    /// removed and reported missing, its size coming back as the second
    /// component.
    pub fn ttl_at(&mut self, key: &[u8], now: u64) -> (r: (ShardTtl, Option<usize>))
        requires
            old(self).wf(),
        ensures
            final(self).wf(),
            model_ttl(old(self).entries(), key@, now) == (final(self).entries(), r.0),
            ({
                let e = old(self).entries();
                let l = old(self).lru();
                let k = key@;
                if !e.contains_key(k) {
                    &&& r == (ShardTtl::Missing, None::<usize>)
                    &&& final(self).entries() == e && final(self).lru() == l
                    &&& final(self).used() == old(self).used()
                } else if expired(e[k], now) {
                    &&& r == (ShardTtl::Missing, Some(entry_size(k, e[k]) as usize))
                    &&& final(self).entries() == e.remove(k)
                    &&& final(self).lru() == l.remove(l.index_of(k))
                    &&& final(self).used() == old(self).used() - entry_size(k, e[k])
                } else {
                    &&& r.0 == (match e[k].expires_at {
                        None => ShardTtl::NoExpiry,
                        Some(t) => ShardTtl::ExpiresIn((t - now) as u64),
                    })
                    &&& r.1 is None
                    &&& final(self).entries() == e && final(self).lru() == l
                    &&& final(self).used() == old(self).used()
                }
            }),
    {
        let idx = match self.map.get(key) {
            Some(i) => i,
            None => return (ShardTtl::Missing, None),
        };
        proof {
            self.lemma_slot_of(key@);
        }
        let expires_at = match &self.slots[idx] {
            Some(node) => node.expires_at,
            None => None,
        };
        match expires_at {
            None => (ShardTtl::NoExpiry, None),
            Some(at) => {
                if at <= now {
                    let freed = self.remove_idx(idx);
                    (ShardTtl::Missing, freed)
                } else {
                    (ShardTtl::ExpiresIn(at - now), None)
                }
            },
        }
    }

    /// True when the shard holds no entry.
    pub fn is_empty(&self) -> (r: bool)
        requires
            self.wf(),
        ensures
            r == (self.lru().len() == 0),
    {
        match self.head {
            Some(_) => false,
            None => true,
        }
    }

    /// Removes the least recently used entry, returning its size; `None`
    /// when the shard is empty.
    pub fn pop_lru(&mut self) -> (r: Option<usize>)
        requires
            old(self).wf(),
        ensures
            final(self).wf(),
            ({
                let e = old(self).entries();
                let l = old(self).lru();
                if l.len() == 0 {
                    &&& r is None
                    &&& final(self).entries() == e && final(self).lru() == l
                    &&& final(self).used() == old(self).used() == 0
                } else {
                    &&& r == Some(entry_size(l[0], e[l[0]]) as usize)
                    &&& final(self).entries() == e.remove(l[0])
                    &&& final(self).lru() == l.drop_first()
                    &&& final(self).used() == old(self).used() - entry_size(l[0], e[l[0]])
                }
            }),
    {
        let idx = match self.head {
            Some(i) => i,
            None => return None,
        };
        proof {
            let o = self.order@;
            assert(o[0] == idx);
            assert(self.slots@[idx as int] is Some);
            let k = self.slots@[idx as int]->Some_0.key@;
            assert(slot_map(self.map)[k] == idx);
            assert(self.entries().contains_key(k));
            self.lemma_slot_of(k);
            assert(o.index_of(idx) == 0) by {
                let q = o.index_of(idx);
                assert(o[q] == idx);
            }
            assert(self.lru().remove(0) =~= self.lru().drop_first());
        }
        self.remove_idx(idx)
    }
}

impl ShardInner {
    /// Removes every entry expired at `now`; returns their sizes.
    pub fn purge_expired_at(&mut self, now: u64) -> (r: Vec<usize>)
        requires
            old(self).wf(),
        ensures
            final(self).wf(),
            forall|k: Seq<u8>|
                #[trigger] final(self).entries().contains_key(k) <==> old(self).entries().contains_key(k) && !expired(
                    old(self).entries()[k],
                    now,
                ),
            forall|k: Seq<u8>|
                #[trigger] final(self).entries().contains_key(k) ==> final(self).entries()[k] == old(self).entries()[k],
            final(self).used() == old(self).used() - seq_sum(r@),
            final(self).lru().len() == old(self).lru().len() - r@.len(),
            keeps_order(final(self).lru(), old(self).lru()),
    {
        let ghost l0 = self.lru().len();
        let ghost lru0 = self.lru();
        proof {
            self.lemma_wf_view();
            lemma_keeps_order_refl(lru0);
        }
        let ghost e0 = self.entries();
        let ghost m0 = slot_map(self.map);
        let ghost s0 = self.slots@;
        let ghost u0 = self.used();
        let mut sizes: Vec<usize> = Vec::new();
        let n = self.slots.len();
        let mut i: usize = 0;
        while i < n
            invariant
                self.wf(),
                n == s0.len(),
                self.slots@.len() == n,
                i <= n,
                forall|j: int| i <= j < n ==> #[trigger] self.slots@[j] == s0[j],
                forall|k: Seq<u8>|
                    #[trigger] self.entries().contains_key(k) <==> e0.contains_key(k) && !(m0[k] < i && expired(
                        e0[k],
                        now,
                    )),
                forall|k: Seq<u8>|
                    #[trigger] self.entries().contains_key(k) ==> self.entries()[k] == e0[k] && slot_map(self.map)[k]
                        == m0[k],
                forall|k: Seq<u8>| #[trigger] e0.contains_key(k) ==> m0[k] < n && s0[m0[k] as int] is Some
                    && s0[m0[k] as int]->Some_0.key@ == k,
                self.used() == u0 - seq_sum(sizes@),
                self.lru().len() == l0 - sizes@.len(),
                keeps_order(self.lru(), lru0),
            decreases n - i,
        {
            let expired_now = match &self.slots[i] {
                Some(node) => node.is_expired(now),
                None => false,
            };
            let ghost before = *self;
            if expired_now {
                let ghost k = self.slots@[i as int]->Some_0.key@;
                proof {
                    assert(slot_map(self.map)[k] == i);
                    assert(self.entries().contains_key(k));
                }
                let ghost cur = self.lru();
                match self.remove_idx(i) {
                    Some(size) => {
                        proof {
                            let p = before.order@.index_of(i);
                            assert(self.lru() == cur.remove(p));
                            assert forall|x: int, y: int| 0 <= x < y < self.lru().len() implies lru0.index_of(
                                #[trigger] self.lru()[x],
                            ) < lru0.index_of(#[trigger] self.lru()[y]) by {
                                let x1 = if x < p { x } else { x + 1 };
                                let y1 = if y < p { y } else { y + 1 };
                                assert(self.lru()[x] == cur[x1]);
                                assert(self.lru()[y] == cur[y1]);
                            }
                        }
                        let ghost prev = sizes@;
                        sizes.push(size);
                        proof {
                            assert(sizes@.drop_last() == prev);
                        }
                    },
                    None => {},
                }
                proof {
                    assert forall|k2: Seq<u8>| #[trigger] self.entries().contains_key(k2) <==> e0.contains_key(k2) && !(m0[k2] < i + 1
                        && expired(e0[k2], now)) by {
                        if e0.contains_key(k2) && m0[k2] == i {
                            assert(k2 == k);
                        }
                    }
                    assert forall|k2: Seq<u8>| #[trigger] self.entries().contains_key(k2) implies self.entries()[k2] == e0[k2]
                        && slot_map(self.map)[k2] == m0[k2] by {
                        assert(before.entries().contains_key(k2));
                    }
                }
            } else {
                proof {
                    assert forall|k2: Seq<u8>| #[trigger] self.entries().contains_key(k2) <==> e0.contains_key(k2) && !(m0[k2] < i + 1
                        && expired(e0[k2], now)) by {
                        if e0.contains_key(k2) && m0[k2] == i {
                            assert(s0[i as int] is Some);
                            let k = s0[i as int]->Some_0.key@;
                            assert(k2 == k);
                            assert(slot_map(self.map)[k] == i);
                            assert(self.entries().contains_key(k));
                        }
                    }
                }
            }
            i = i + 1;
        }
        sizes
    }
}

/// The entries, as a map, that a shard keeps.
pub type Entries = Map<Seq<u8>, EntryView>;

/// `k` is stored and not expired at `now`.
pub open spec fn live(e: Entries, k: Seq<u8>, now: u64) -> bool {
    e.contains_key(k) && !expired(e[k], now)
}

/// `get`: the value of a live key; an expired one is dropped.
pub open spec fn model_get(e: Entries, k: Seq<u8>, now: u64) -> (Entries, Option<Seq<u8>>) {
    if !e.contains_key(k) {
        (e, None)
    } else if expired(e[k], now) {
        (e.remove(k), None)
    } else {
        (e, Some(e[k].value))
    }
}

/// `set`: the key holds the value, with no deadline.
pub open spec fn model_set(e: Entries, k: Seq<u8>, v: Seq<u8>) -> Entries {
    e.insert(k, EntryView { value: v, expires_at: None })
}

/// `delete`: the key is gone; true iff it was live.
pub open spec fn model_delete(e: Entries, k: Seq<u8>, now: u64) -> (Entries, bool) {
    (e.remove(k), live(e, k, now))
}

/// `expire`: a live key gets the deadline `ttl` after `now`; otherwise the
/// key is dropped and the call fails.
pub open spec fn model_expire(e: Entries, k: Seq<u8>, ttl: u64, now: u64) -> (Entries, bool) {
    if live(e, k, now) {
        (e.insert(k, EntryView { value: e[k].value, expires_at: Some(deadline(now, ttl)) }), true)
    } else {
        (e.remove(k), false)
    }
}

/// `ttl`: the remaining lifetime of a live key; an expired one is dropped.
pub open spec fn model_ttl(e: Entries, k: Seq<u8>, now: u64) -> (Entries, ShardTtl) {
    if !e.contains_key(k) {
        (e, ShardTtl::Missing)
    } else if expired(e[k], now) {
        (e.remove(k), ShardTtl::Missing)
    } else {
        (e, match e[k].expires_at {
            None => ShardTtl::NoExpiry,
            Some(t) => ShardTtl::ExpiresIn((t - now) as u64),
        })
    }
}

/// A call on one key, at a time.
pub enum Op {
    Get(Seq<u8>),
    Put(Seq<u8>, Seq<u8>),
    Delete(Seq<u8>),
    Expire(Seq<u8>, u64),
}

/// The entries after one call at `now`.
pub open spec fn model_step(e: Entries, op: Op, now: u64) -> Entries {
    match op {
        Op::Get(k) => model_get(e, k, now).0,
        Op::Put(k, v) => model_set(e, k, v),
        Op::Delete(k) => model_delete(e, k, now).0,
        Op::Expire(k, ttl) => model_expire(e, k, ttl, now).0,
    }
}

/// The entries after a run of timed calls.
pub open spec fn replay(e: Entries, ops: Seq<(Op, u64)>) -> Entries
    decreases ops.len(),
{
    if ops.len() == 0 {
        e
    } else {
        model_step(replay(e, ops.drop_last()), ops.last().0, ops.last().1)
    }
}

/// A plain dictionary that never drops an entry on its own: expired
/// entries just stop being visible.
pub open spec fn reference_step(d: Entries, op: Op, now: u64) -> Entries {
    match op {
        Op::Get(_) => d,
        Op::Put(k, v) => d.insert(k, EntryView { value: v, expires_at: None }),
        Op::Delete(k) => d.remove(k),
        Op::Expire(k, ttl) => if live(d, k, now) {
            d.insert(k, EntryView { value: d[k].value, expires_at: Some(deadline(now, ttl)) })
        } else {
            d
        },
    }
}

pub open spec fn reference(d: Entries, ops: Seq<(Op, u64)>) -> Entries
    decreases ops.len(),
{
    if ops.len() == 0 {
        d
    } else {
        reference_step(reference(d, ops.drop_last()), ops.last().0, ops.last().1)
    }
}

/// Times never go back along a run of calls, and none is after `now`.
pub open spec fn timed_up_to(ops: Seq<(Op, u64)>, now: u64) -> bool {
    &&& forall|i: int, j: int| 0 <= i < j < ops.len() ==> ops[i].1 <= ops[j].1
    &&& forall|i: int| 0 <= i < ops.len() ==> #[trigger] ops[i].1 <= now
}

/// The same keys are live at `now` in both, with the same entries.
pub open spec fn agree(a: Entries, b: Entries, now: u64) -> bool {
    forall|k: Seq<u8>| #![trigger a[k]] #![trigger b[k]] #![trigger live(a, k, now)] #![trigger live(b, k, now)]
        (live(a, k, now) <==> live(b, k, now)) && (live(a, k, now) ==> a[k] == b[k])
}

proof fn lemma_agree_later(a: Entries, b: Entries, t: u64, t2: u64)
    requires
        agree(a, b, t),
        t <= t2,
    ensures
        agree(a, b, t2),
{
    assert forall|k: Seq<u8>| (live(a, k, t2) <==> live(b, k, t2)) && (live(a, k, t2) ==> a[k] == b[k]) by {
        if live(a, k, t2) {
            assert(live(a, k, t));
        }
        if live(b, k, t2) {
            assert(live(b, k, t));
        }
    }
}

proof fn lemma_agree_step(a: Entries, b: Entries, op: Op, t: u64)
    requires
        agree(a, b, t),
    ensures
        agree(model_step(a, op, t), reference_step(b, op, t), t),
{
    let a2 = model_step(a, op, t);
    let b2 = reference_step(b, op, t);
    assert forall|k: Seq<u8>| (live(a2, k, t) <==> live(b2, k, t)) && (live(a2, k, t) ==> a2[k] == b2[k]) by {
        assert(live(a, k, t) <==> live(b, k, t));
    }
}

/// Replaying timed calls on a shard's entries leaves live exactly the keys,
/// with the same values and deadlines, that a plain dictionary leaves
/// visible when it only checks deadlines on reading.
pub proof fn lemma_replay_matches_reference(e: Entries, ops: Seq<(Op, u64)>, now: u64)
    requires
        timed_up_to(ops, now),
    ensures
        forall|k: Seq<u8>| #[trigger] live(replay(e, ops), k, now) <==> live(reference(e, ops), k, now),
        forall|k: Seq<u8>|
            #[trigger] live(replay(e, ops), k, now) ==> replay(e, ops)[k] == reference(e, ops)[k],
    decreases ops.len(),
{
    lemma_replay_agrees(e, ops, now);
    let a = replay(e, ops);
    let b = reference(e, ops);
    assert forall|k: Seq<u8>| #[trigger] live(a, k, now) <==> live(b, k, now) by {}
}

proof fn lemma_replay_agrees(e: Entries, ops: Seq<(Op, u64)>, now: u64)
    requires
        timed_up_to(ops, now),
    ensures
        agree(replay(e, ops), reference(e, ops), now),
    decreases ops.len(),
{
    if ops.len() == 0 {
    } else {
        let init = ops.drop_last();
        let t = ops.last().1;
        assert(timed_up_to(init, t)) by {
            assert forall|i: int| 0 <= i < init.len() implies #[trigger] init[i].1 <= t by {
                assert(ops[i].1 <= ops[ops.len() - 1].1);
            }
            assert forall|i: int, j: int| 0 <= i < j < init.len() implies init[i].1 <= init[j].1 by {
                assert(ops[i].1 <= ops[j].1);
            }
        }
        lemma_replay_agrees(e, init, t);
        lemma_agree_step(replay(e, init), reference(e, init), ops.last().0, t);
        assert(t <= now) by {
            assert(ops[ops.len() - 1].1 <= now);
        }
        lemma_agree_later(replay(e, ops), reference(e, ops), t, now);
    }
}

/// A stored value reads back.
pub proof fn lemma_set_then_get(e: Entries, k: Seq<u8>, v: Seq<u8>, now: u64)
    ensures
        model_get(model_set(e, k, v), k, now).1 == Some(v),
{
}

/// The later of two writes wins.
pub proof fn lemma_set_twice_then_get(e: Entries, k: Seq<u8>, v1: Seq<u8>, v2: Seq<u8>, now: u64)
    ensures
        model_get(model_set(model_set(e, k, v1), k, v2), k, now).1 == Some(v2),
{
}

/// Deleting a stored key reports a live removal once, then nothing.
pub proof fn lemma_delete_twice(e: Entries, k: Seq<u8>, v: Seq<u8>, t1: u64, t2: u64)
    ensures
        ({
            let (e1, first) = model_delete(model_set(e, k, v), k, t1);
            let (_, second) = model_delete(e1, k, t2);
            first && !second
        }),
{
}

/// A zero time-to-live hides the key from then on.
pub proof fn lemma_expire_zero_hides(e: Entries, k: Seq<u8>, v: Seq<u8>, t: u64, later: u64)
    requires
        t <= later,
    ensures
        ({
            let (e1, ok) = model_expire(model_set(e, k, v), k, 0, t);
            ok && model_get(e1, k, later).1 is None
        }),
{
}

/// A fresh key has no expiry; after `expire(k, d)` its remaining time is
/// at most `d`, or it has gone.
pub proof fn lemma_ttl_after_expire(e: Entries, k: Seq<u8>, v: Seq<u8>, d: u64, t: u64, later: u64)
    requires
        t <= later,
    ensures
        model_ttl(model_set(e, k, v), k, t).1 == ShardTtl::NoExpiry,
        ({
            let (e1, ok) = model_expire(model_set(e, k, v), k, d, t);
            &&& ok
            &&& match model_ttl(e1, k, later).1 {
                ShardTtl::ExpiresIn(rest) => rest <= d && later < deadline(t, d),
                ShardTtl::Missing => later >= deadline(t, d),
                ShardTtl::NoExpiry => false,
            }
        }),
{
}

/// An entry whose deadline has passed is never seen as live: `get` finds
/// nothing, `ttl` reports it missing, `delete` reports no live removal.
pub proof fn lemma_expired_never_live(e: Entries, k: Seq<u8>, now: u64)
    requires
        e.contains_key(k),
        e[k].expires_at matches Some(t) && now >= t,
    ensures
        model_get(e, k, now).1 is None,
        model_ttl(e, k, now).1 == ShardTtl::Missing,
        !model_delete(e, k, now).1,
        !model_expire(e, k, 0, now).1,
{
}

/// The bytes of the entries of `keys`: key length plus value length each.
pub open spec fn bytes_of(keys: Seq<Seq<u8>>, e: Entries) -> int
    decreases keys.len(),
{
    if keys.len() == 0 {
        0
    } else {
        bytes_of(keys.drop_last(), e) + entry_size(keys.last(), e[keys.last()])
    }
}

impl ShardInner {
    /// A shard's byte count is the sum of its entries' sizes.
    pub proof fn lemma_used_is_bytes(&self)
        requires
            self.wf(),
        ensures
            self.used() == bytes_of(self.lru(), self.entries()),
    {
        self.lemma_bytes_prefix(self.order@.len() as int);
        assert(self.order@.take(self.order@.len() as int) =~= self.order@);
        assert(self.lru().take(self.order@.len() as int) =~= self.lru());
    }

    proof fn lemma_bytes_prefix(&self, n: int)
        requires
            self.wf(),
            0 <= n <= self.order@.len(),
        ensures
            sum_sizes(self.slots@, self.order@.take(n)) == bytes_of(self.lru().take(n), self.entries()),
        decreases n,
    {
        if n > 0 {
            self.lemma_bytes_prefix(n - 1);
            let o = self.order@;
            assert(o.take(n).drop_last() =~= o.take(n - 1));
            assert(self.lru().take(n).drop_last() =~= self.lru().take(n - 1));
            let idx = o[n - 1];
            assert(self.slots@[idx as int] is Some);
            let k = self.slots@[idx as int]->Some_0.key@;
            assert(slot_map(self.map)[k] == idx);
            assert(self.lru().take(n).last() == k);
        } else {
            assert(self.order@.take(0) =~= Seq::<usize>::empty());
            assert(self.lru().take(0) =~= Seq::<Seq<u8>>::empty());
        }
    }
}

/// The keys of `a` stand in the same relative order as in `b`.
pub open spec fn keeps_order(a: Seq<Seq<u8>>, b: Seq<Seq<u8>>) -> bool {
    forall|x: int, y: int| 0 <= x < y < a.len() ==> b.index_of(#[trigger] a[x]) < b.index_of(#[trigger] a[y])
}

proof fn lemma_keeps_order_refl(s: Seq<Seq<u8>>)
    requires
        s.no_duplicates(),
    ensures
        keeps_order(s, s),
{
    assert forall|x: int, y: int| 0 <= x < y < s.len() implies s.index_of(#[trigger] s[x]) < s.index_of(#[trigger] s[y]) by {
        assert(s.contains(s[x]));
        assert(s.contains(s[y]));
        let cx = s.index_of(s[x]);
        let cy = s.index_of(s[y]);
        assert(s[cx] == s[x]);
        assert(s[cy] == s[y]);
    }
}

} // verus!
