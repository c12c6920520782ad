//! The sharded in-memory engine: keys are spread over power-of-two many
//! shards by a hash seeded once per engine, each shard an LRU cache with
//! TTL (`ShardInner`); a byte count over all shards drives round-robin LRU
//! eviction. Callers that share an engine between threads hold it behind
//! a lock; each call touches one shard, except `purge_expired`.
//!
//! The engine's contents are `entries()`, the union of its shards'
//! entries: the key `k` lives in shard `shard_for(k)`, which stays the same
//! for the engine's lifetime. Times are monotonic nanoseconds since the
//! engine was made; `clock()` is the time of the latest call.
use vstd::prelude::*;
use vstd::std_specs::hash::DefaultHasherAdditionalSpecFns;
use std::collections::hash_map::DefaultHasher;
use std::hash::{BuildHasher, Hasher};
use std::sync::Arc;
use std::time::Instant;
use crate::clock::{duration_nanos, duration_since, instant_now};
use crate::error::{HkvError, HkvResult};
use crate::shard::{
    lemma_replay_matches_reference, live, model_step, reference, replay, timed_up_to, Op, keeps_order, seq_sum, entry_size, expired, model_delete, model_expire, model_get, model_set, model_ttl, Entries,
    ShardInner, ShardTtl,
};

verus! {

/// Relies on `ahash::RandomState::new`: a hasher builder with fresh random keys.
#[verifier::external_body]
fn new_hash_state() -> ahash::RandomState {
    ahash::RandomState::new()
}

/// Relies on `RandomState::clone`: a builder with the same keys.
#[verifier::external_body]
fn clone_hash_state(state: &ahash::RandomState) -> ahash::RandomState {
    state.clone()
}

/// Relies on ahash's `BuildHasher::build_hasher`, `Hasher::write` and
/// `Hasher::finish`: the 64-bit hash of `key` under `state`'s keys.
#[verifier::external_body]
fn hash_key(state: &ahash::RandomState, key: &[u8]) -> u64 {
    let mut hasher = state.build_hasher();
    hasher.write(key);
    hasher.finish()
}

/// `n` is a power of two.
pub open spec fn is_power_of_two(n: nat) -> bool
    decreases n,
{
    if n <= 1 {
        n == 1
    } else {
        n % 2 == 0 && is_power_of_two(n / 2)
    }
}

/// The least power of two that is at least `count`, and at least 1.
pub fn normalize_shard_count(count: usize) -> (r: usize)
    requires
        count <= usize::MAX / 2 + 1,
    ensures
        is_power_of_two(r as nat),
        r >= count,
        r >= 1,
        r == 1 || r / 2 < count,
{
    let mut p: usize = 1;
    while p < count
        invariant
            1 <= p,
            is_power_of_two(p as nat),
            p == 1 || p / 2 < count,
            count <= usize::MAX / 2 + 1,
        decreases usize::MAX - p,
    {
        proof {
            assert((p * 2) as nat / 2 == p as nat);
            assert((p * 2) as nat % 2 == 0);
        }
        p = p * 2;
    }
    p
}

/// Clamps nanoseconds to `u64`.
fn clamp_nanos(n: u128) -> (r: u64)
    ensures
        r == (if n > u64::MAX as u128 { u64::MAX } else { n as u64 }),
{
    if n > u64::MAX as u128 {
        u64::MAX
    } else {
        n as u64
    }
}

/// The shard of `key`: the hash of the engine's seed and the key, masked.
pub open spec fn shard_of(seed: Seq<u8>, key: Seq<u8>, mask: usize) -> int {
    ((DefaultHasher::spec_finish(seq![seed, key]) as usize) & mask) as int
}

proof fn lemma_shard_of_range(seed: Seq<u8>, key: Seq<u8>, mask: usize)
    ensures
        0 <= shard_of(seed, key, mask) <= mask,
{
    let v: usize = DefaultHasher::spec_finish(seq![seed, key]) as usize;
    assert(v & mask <= mask) by (bit_vector);
}

/// A sum over the shards.
pub open spec fn shard_sum(s: Seq<ShardInner>, f: spec_fn(ShardInner) -> int) -> int
    decreases s.len(),
{
    if s.len() == 0 {
        0
    } else {
        shard_sum(s.drop_last(), f) + f(s.last())
    }
}

/// Bytes over all shards.
pub open spec fn total_used(s: Seq<ShardInner>) -> int {
    shard_sum(s, |x: ShardInner| x.used())
}

/// Entries over all shards.
pub open spec fn total_count(s: Seq<ShardInner>) -> int {
    shard_sum(s, |x: ShardInner| x.lru().len() as int)
}

proof fn lemma_shard_sum_update(s: Seq<ShardInner>, f: spec_fn(ShardInner) -> int, i: int, n: ShardInner)
    requires
        0 <= i < s.len(),
    ensures
        shard_sum(s.update(i, n), f) == shard_sum(s, f) - f(s[i]) + f(n),
    decreases s.len(),
{
    let s2 = s.update(i, n);
    if i == s.len() - 1 {
        assert(s2.drop_last() =~= s.drop_last());
    } else {
        lemma_shard_sum_update(s.drop_last(), f, i, n);
        assert(s2.drop_last() =~= s.drop_last().update(i, n));
    }
}

proof fn lemma_shard_sum_nonneg(s: Seq<ShardInner>, f: spec_fn(ShardInner) -> int)
    requires
        forall|i: int| 0 <= i < s.len() ==> f(#[trigger] s[i]) >= 0,
    ensures
        shard_sum(s, f) >= 0,
    decreases s.len(),
{
    if s.len() > 0 {
        lemma_shard_sum_nonneg(s.drop_last(), f);
        assert(f(s[s.len() - 1]) >= 0);
    }
}

proof fn lemma_shard_sum_zero(s: Seq<ShardInner>, f: spec_fn(ShardInner) -> int)
    requires
        forall|i: int| 0 <= i < s.len() ==> f(#[trigger] s[i]) == 0,
    ensures
        shard_sum(s, f) == 0,
    decreases s.len(),
{
    if s.len() > 0 {
        lemma_shard_sum_zero(s.drop_last(), f);
        assert(f(s[s.len() - 1]) == 0);
    }
}

/// The byte contents of an optional shared value.
pub open spec fn value_view(v: Option<Arc<Vec<u8>>>) -> Option<Seq<u8>> {
    match v {
        Some(a) => Some(a@),
        None => None,
    }
}

/// `a` is what is left of `b` after dropping some of its first elements.
pub open spec fn is_suffix(a: Seq<Seq<u8>>, b: Seq<Seq<u8>>) -> bool {
    exists|n: int| 0 <= n <= b.len() && a == #[trigger] b.skip(n)
}

/// Shard `j`'s LRU list once `set` has stored `k`, before eviction: the
/// key becomes the most recently used of its shard.
pub open spec fn set_lru(e: &MemoryEngine, k: Seq<u8>, j: int) -> Seq<Seq<u8>> {
    let i = e.shard_for(k);
    let l = e.shard(i).lru();
    if j == i {
        if e.entries().contains_key(k) {
            l.remove(l.index_of(k)).push(k)
        } else {
            l.push(k)
        }
    } else {
        e.shard(j).lru()
    }
}

/// Bytes held once `set` has stored `v` under `k`, before eviction.
pub open spec fn bytes_after_set(e: &MemoryEngine, k: Seq<u8>, v: Seq<u8>) -> int {
    e.used() - (if e.entries().contains_key(k) {
        entry_size(k, e.entries()[k])
    } else {
        0
    }) + k.len() + v.len()
}

/// What `set(k, v)` does, taking the engine from `a` to `b`: `k` holds `v`
/// with no deadline and becomes the most recently used key of its shard;
/// then least recently used entries are evicted, round-robin over shards,
/// while the engine is over budget (a zero budget empties it). Each shard
/// loses a prefix of its LRU list; the last key evicted was needed.
pub open spec fn set_effect(a: &MemoryEngine, b: &MemoryEngine, k: Seq<u8>, v: Seq<u8>) -> bool {
    let e1 = model_set(a.entries(), k, v);
    let cap = b.capacity();
    let after = bytes_after_set(a, k, v);
    &&& b.wf()
    &&& b.same_frame(a)
    &&& a.clock() <= b.clock()
    &&& kept_from(b.entries(), e1)
    &&& b.used() <= cap
    &&& cap == 0 ==> b.entries().is_empty()
    &&& after <= cap && cap != 0 ==> b.entries() == e1 && b.used() == after
    &&& cap == usize::MAX ==> b.entries() == e1
    &&& b.entries() != e1 ==> exists|j: int, n: int|
        0 <= j < a.shard_count() && 0 < n <= set_lru(a, k, j).len() && b.shard(j).lru() == #[trigger] set_lru(a, k, j).skip(n)
            && (b.used() + entry_size(set_lru(a, k, j)[n - 1], e1[set_lru(a, k, j)[n - 1]]) > cap || cap == 0)
    &&& b.used() <= after
    &&& cap == usize::MAX ==> b.used() == after
    &&& forall|j: int| 0 <= j < a.shard_count() ==> is_suffix(#[trigger] b.shard(j).lru(), set_lru(a, k, j))
}

/// `small` keeps some of `big`'s keys, with the same entries.
pub open spec fn kept_from(small: Entries, big: Entries) -> bool {
    forall|k: Seq<u8>| #[trigger] small.contains_key(k) ==> big.contains_key(k) && small[k] == big[k]
}

/// Remaining lifetime of a key.
#[derive(Debug, Clone, Copy, PartialEq, Eq, Structural)]
pub enum TtlStatus {
    /// Missing or expired.
    Missing,
    /// Stored without expiration.
    NoExpiry,
    /// Expires in this many nanoseconds.
    ExpiresIn(u64),
}

impl TtlStatus {
    pub open spec fn of(t: ShardTtl) -> TtlStatus {
        match t {
            ShardTtl::Missing => TtlStatus::Missing,
            ShardTtl::NoExpiry => TtlStatus::NoExpiry,
            ShardTtl::ExpiresIn(n) => TtlStatus::ExpiresIn(n),
        }
    }
}

/// The sharded in-memory engine.
pub struct MemoryEngine {
    shards: Vec<ShardInner>,
    shard_mask: usize,
    seed: Vec<u8>,
    max_bytes: usize,
    used_bytes: usize,
    eviction_cursor: usize,
    epoch: Instant,
    last_now: u64,
}

impl MemoryEngine {
    /// The engine's consistency: shards well formed, each key in its own
    /// shard, and the byte count equal to the shards' bytes.
    pub closed spec fn wf(&self) -> bool {
        &&& self.shards@.len() == self.shard_mask + 1
        &&& is_power_of_two(self.shards@.len() as nat)
        &&& forall|i: int| 0 <= i < self.shards@.len() ==> (#[trigger] self.shards@[i]).wf()
        &&& forall|i: int, k: Seq<u8>|
            0 <= i < self.shards@.len() && #[trigger] self.shards@[i].entries().contains_key(k) ==> shard_of(
                self.seed@,
                k,
                self.shard_mask,
            ) == i
        &&& self.used_bytes == total_used(self.shards@)
    }

    /// The number of shards.
    pub closed spec fn shard_count(&self) -> nat {
        self.shards@.len()
    }

    /// Shard `i`.
    pub closed spec fn shard(&self, i: int) -> ShardInner {
        self.shards@[i]
    }

    /// The shard that holds `key`.
    pub closed spec fn shard_for(&self, key: Seq<u8>) -> int {
        shard_of(self.seed@, key, self.shard_mask)
    }

    /// Bytes held.
    pub fn used_bytes(&self) -> (r: usize)
        ensures
            r == self.used(),
    {
        self.used_bytes
    }

    /// The byte budget; `usize::MAX` stands for no budget.
    pub closed spec fn capacity(&self) -> usize {
        self.max_bytes
    }

    /// Bytes held: the sum of key and value lengths of all entries.
    pub closed spec fn used(&self) -> int {
        self.used_bytes as int
    }

    /// The time of the latest call.
    pub closed spec fn clock(&self) -> u64 {
        self.last_now
    }

    /// Key to stored entry, over all shards.
    pub closed spec fn entries(&self) -> Entries {
        Map::new(
            |k: Seq<u8>| self.shards@[self.shard_for(k)].entries().contains_key(k),
            |k: Seq<u8>| self.shards@[self.shard_for(k)].entries()[k],
        )
    }

    /// The seed of the shard hash.
    pub closed spec fn seed(&self) -> Seq<u8> {
        self.seed@
    }

    /// The mask applied to the shard hash.
    pub closed spec fn mask(&self) -> usize {
        self.shard_mask
    }

    /// The engine's shape, seed and budget are fixed for its lifetime.
    pub open spec fn same_frame(&self, other: &MemoryEngine) -> bool {
        &&& self.shard_count() == other.shard_count()
        &&& self.mask() == other.mask()
        &&& self.seed() == other.seed()
        &&& self.capacity() == other.capacity()
    }

    /// The engine's byte count is the sum of its shards' byte counts; with
    /// one shard, that shard's.
    pub proof fn lemma_used_of_one_shard(&self)
        requires
            self.wf(),
            self.shard_count() == 1,
        ensures
            self.used() == self.shard(0).used(),
            forall|k: Seq<u8>| self.entries().contains_key(k) <==> #[trigger] self.shard(0).entries().contains_key(k),
            forall|k: Seq<u8>| #[trigger] self.entries().contains_key(k) ==> self.entries()[k] == self.shard(0).entries()[k],
    {
        assert(self.shards@.drop_last() =~= Seq::<ShardInner>::empty());
        assert(shard_sum(self.shards@.drop_last(), |x: ShardInner| x.used()) == 0);
        assert(total_used(self.shards@) == shard_sum(self.shards@.drop_last(), |x: ShardInner| x.used()) + self.shards@.last().used());
        assert forall|k: Seq<u8>| 0 <= #[trigger] self.shard_for(k) < 1 by {
            lemma_shard_of_range(self.seed@, k, self.shard_mask);
        }
    }

    /// Facts of a well-formed engine: each key's shard is in range, bytes
    /// are non-negative, and shard `shard_for(k)` holds exactly `k`'s entry.
    pub proof fn lemma_wf(&self)
        requires
            self.wf(),
        ensures
            forall|k: Seq<u8>| 0 <= #[trigger] self.shard_for(k) < self.shard_count(),
            self.used() >= 0,
            forall|i: int| 0 <= i < self.shard_count() ==> (#[trigger] self.shard(i)).used() >= 0,
            self.entries().is_empty() <==> forall|i: int|
                0 <= i < self.shard_count() ==> (#[trigger] self.shard(i)).lru().len() == 0,
    {
        assert forall|k: Seq<u8>| 0 <= #[trigger] self.shard_for(k) < self.shard_count() by {
            lemma_shard_of_range(self.seed@, k, self.shard_mask);
        }
        assert forall|i: int| 0 <= i < self.shards@.len() implies (#[trigger] self.shards@[i]).used() >= 0 by {
            self.shards@[i].lemma_wf_view();
        }
        lemma_shard_sum_nonneg(self.shards@, |x: ShardInner| x.used());
        if self.entries().is_empty() {
            assert forall|i: int| 0 <= i < self.shard_count() implies (#[trigger] self.shard(i)).lru().len() == 0 by {
                self.shards@[i].lemma_wf_view();
                if self.shards@[i].lru().len() != 0 {
                    assert(!self.shards@[i].entries().dom().is_empty());
                    let k = choose|k: Seq<u8>| self.shards@[i].entries().dom().contains(k);
                    assert(self.shards@[i].entries().contains_key(k));
                    assert(self.shard_for(k) == i);
                    assert(self.entries().dom().contains(k));
                }
            }
        } else {
            assert(!self.entries().dom().is_empty());
            let k = choose|k: Seq<u8>| self.entries().dom().contains(k);
            let i = self.shard_for(k);
            lemma_shard_of_range(self.seed@, k, self.shard_mask);
            self.shards@[i].lemma_wf_view();
            assert(self.shards@[i].entries().dom().contains(k));
            assert(self.shard(i).lru().len() != 0);
        }
    }
}

impl MemoryEngine {
    proof fn lemma_replace(old_e: MemoryEngine, new_e: MemoryEngine, i: int, k: Seq<u8>)
        requires
            old_e.wf(),
            new_e.same_frame(&old_e),
            0 <= i < old_e.shards@.len(),
            i == old_e.shard_for(k),
            new_e.shards@ == old_e.shards@.update(i, new_e.shards@[i]),
            new_e.shards@[i].wf(),
            forall|k2: Seq<u8>|
                k2 != k ==> (#[trigger] new_e.shards@[i].entries().contains_key(k2) <==> old_e.shards@[i].entries().contains_key(k2)),
            forall|k2: Seq<u8>|
                k2 != k && #[trigger] new_e.shards@[i].entries().contains_key(k2) ==> new_e.shards@[i].entries()[k2]
                    == old_e.shards@[i].entries()[k2],
            new_e.used_bytes == total_used(new_e.shards@),
        ensures
            new_e.wf(),
            old_e.entries().contains_key(k) == old_e.shards@[i].entries().contains_key(k),
            old_e.entries().contains_key(k) ==> old_e.entries()[k] == old_e.shards@[i].entries()[k],
            new_e.entries() == (if new_e.shards@[i].entries().contains_key(k) {
                old_e.entries().insert(k, new_e.shards@[i].entries()[k])
            } else {
                old_e.entries().remove(k)
            }),
    {
        assert forall|j: int, k2: Seq<u8>|
            0 <= j < new_e.shards@.len() && #[trigger] new_e.shards@[j].entries().contains_key(k2) implies shard_of(
                new_e.seed@,
                k2,
                new_e.shard_mask,
            ) == j by {
            if j == i && k2 != k {
                assert(old_e.shards@[i].entries().contains_key(k2));
            }
        }
        assert(new_e.wf());
        old_e.lemma_wf();
        new_e.lemma_wf();
        let target = if new_e.shards@[i].entries().contains_key(k) {
            old_e.entries().insert(k, new_e.shards@[i].entries()[k])
        } else {
            old_e.entries().remove(k)
        };
        assert forall|k2: Seq<u8>| #[trigger] new_e.entries().contains_key(k2) == target.contains_key(k2)
            && (new_e.entries().contains_key(k2) ==> new_e.entries()[k2] == target[k2]) by {
            let j = old_e.shard_for(k2);
            assert(new_e.shard_for(k2) == j);
            if j != i {
                assert(new_e.shards@[j] == old_e.shards@[j]);
            }
        }
        assert(new_e.entries() =~= target);
    }

    /// An engine with `shards` shards (rounded up to a power of two) whose
    /// entries may take `max_bytes` bytes in all; `usize::MAX` is no budget.
    pub fn with_shard_count_and_capacity(shards: usize, max_bytes: usize) -> (r: MemoryEngine)
        requires
            shards <= usize::MAX / 2 + 1,
        ensures
            r.wf(),
            is_power_of_two(r.shard_count()),
            r.shard_count() >= shards,
            r.shard_count() == 1 || r.shard_count() / 2 < shards,
            r.capacity() == max_bytes,
            r.entries().is_empty(),
            r.used() == 0,
            r.clock() == 0,
    {
        let shard_count = normalize_shard_count(shards);
        let hash_state = new_hash_state();
        let mut shard_vec: Vec<ShardInner> = Vec::new();
        let mut i: usize = 0;
        while i < shard_count
            invariant
                i <= shard_count,
                shard_vec@.len() == i,
                forall|j: int| 0 <= j < i ==> (#[trigger] shard_vec@[j]).wf() && shard_vec@[j].entries().is_empty()
                    && shard_vec@[j].used() == 0 && shard_vec@[j].lru().len() == 0,
            decreases shard_count - i,
        {
            shard_vec.push(ShardInner::new(clone_hash_state(&hash_state)));
            i = i + 1;
        }
        let empty: Vec<u8> = Vec::new();
        let raw = hash_key(&hash_state, empty.as_slice());
        let mut seed: Vec<u8> = Vec::new();
        let mut b: u64 = 0;
        while b < 8
            invariant
                b <= 8,
            decreases 8 - b,
        {
            seed.push(((raw >> (8 * b)) & 0xff) as u8);
            b = b + 1;
        }
        proof {
            lemma_shard_sum_zero(shard_vec@, |x: ShardInner| x.used());
        }
        let r = MemoryEngine {
            shards: shard_vec,
            shard_mask: shard_count - 1,
            seed,
            max_bytes,
            used_bytes: 0,
            eviction_cursor: 0,
            epoch: instant_now(),
            last_now: 0,
        };
        proof {
            assert(r.entries() =~= Map::<Seq<u8>, crate::shard::EntryView>::empty()) by {
                assert forall|k: Seq<u8>| !r.entries().contains_key(k) by {
                    lemma_shard_of_range(r.seed@, k, r.shard_mask);
                }
            }
        }
        r
    }

    /// An engine with `shards` shards (rounded up to a power of two) and no
    /// byte budget.
    pub fn with_shard_count(shards: usize) -> (r: MemoryEngine)
        requires
            shards <= usize::MAX / 2 + 1,
        ensures
            r.wf(),
            r.shard_count() >= shards,
            r.capacity() == usize::MAX,
            r.entries().is_empty(),
            r.used() == 0,
    {
        Self::with_shard_count_and_capacity(shards, usize::MAX)
    }

    /// Nanoseconds from the engine's creation to `at`.
    fn nanos_at(&self, at: &Instant) -> u64 {
        let d = duration_since(at, &self.epoch);
        clamp_nanos(duration_nanos(&d))
    }

    /// Advances the engine's clock to now, never backwards, and returns it.
    fn tick(&mut self) -> (r: u64)
        ensures
            r == final(self).clock(),
            old(self).clock() <= r,
            final(self).shards == old(self).shards,
            final(self).same_frame(old(self)),
            final(self).used_bytes == old(self).used_bytes,
            final(self).wf() == old(self).wf(),
            final(self).entries() == old(self).entries(),
    {
        let now = instant_now();
        let t = self.nanos_at(&now);
        if t > self.last_now {
            self.last_now = t;
        }
        self.last_now
    }

    /// The shard that owns `key`: the seeded hash of the key, masked.
    fn shard_index(&self, key: &[u8]) -> (r: usize)
        requires
            self.wf(),
        ensures
            r == self.shard_for(key@),
            r < self.shard_count(),
    {
        let mut hasher = DefaultHasher::new();
        hasher.write(self.seed.as_slice());
        hasher.write(key);
        proof {
            assert(hasher@ =~= seq![self.seed@, key@]);
            lemma_shard_of_range(self.seed@, key@, self.shard_mask);
        }
        let h = hasher.finish() as usize;
        let mask = self.shard_mask;
        assert(h & mask <= mask) by (bit_vector);
        h & mask
    }

    /// Looks `key` up: a live entry's value is returned and becomes the most
    /// recently used of its shard; an expired entry is removed and reads as
    /// absent.
    pub fn get(&mut self, key: &[u8]) -> (r: HkvResult<Option<Arc<Vec<u8>>>>)
        requires
            old(self).wf(),
        ensures
            final(self).wf(),
            final(self).same_frame(old(self)),
            old(self).clock() <= final(self).clock(),
            r matches Ok(v) && model_get(old(self).entries(), key@, final(self).clock()) == (
                final(self).entries(),
                value_view(v),
            ),
            ({
                let e = old(self).entries();
                let k = key@;
                let i = old(self).shard_for(k);
                let l = old(self).shard(i).lru();
                &&& final(self).used() == old(self).used() - (if e.contains_key(k) && expired(e[k], final(self).clock()) {
                    entry_size(k, e[k])
                } else {
                    0
                })
                &&& final(self).shard(i).lru() == (if !e.contains_key(k) {
                    l
                } else if expired(e[k], final(self).clock()) {
                    l.remove(l.index_of(k))
                } else {
                    l.remove(l.index_of(k)).push(k)
                })
                &&& forall|j: int| 0 <= j < old(self).shard_count() && j != i ==> #[trigger] final(self).shard(j) == old(self).shard(j)
            }),
    {
        let now = self.tick();
        let ghost before = *self;
        let idx = self.shard_index(key);
        proof {
            before.lemma_wf();
            assert(before.shards@[idx as int].wf());
        }
        let (value, freed) = self.shards[idx].get_at(key, now);
        proof {
            MemoryEngine::lemma_shard_sum_update_used(before.shards@, idx as int, self.shards@[idx as int]);
            MemoryEngine::lemma_total_nonneg(self.shards@);
            if before.shards@[idx as int].entries().contains_key(key@) {
                before.shards@[idx as int].lemma_entry_size_fits(key@);
            }
        }
        if let Some(size) = freed {
            self.used_bytes = self.used_bytes - size;
        }
        proof {
            MemoryEngine::lemma_replace(before, *self, idx as int, key@);
        }
        Ok(value)
    }

    proof fn lemma_total_nonneg(s: Seq<ShardInner>)
        requires
            forall|i: int| 0 <= i < s.len() ==> (#[trigger] s[i]).wf(),
        ensures
            total_used(s) >= 0,
    {
        assert forall|i: int| 0 <= i < s.len() implies (#[trigger] s[i]).used() >= 0 by {
            s[i].lemma_wf_view();
        }
        lemma_shard_sum_nonneg(s, |x: ShardInner| x.used());
    }

    proof fn lemma_shard_sum_update_used(s: Seq<ShardInner>, i: int, n: ShardInner)
        requires
            0 <= i < s.len(),
        ensures
            total_used(s.update(i, n)) == total_used(s) - s[i].used() + n.used(),
            total_count(s.update(i, n)) == total_count(s) - s[i].lru().len() + n.lru().len(),
    {
        lemma_shard_sum_update(s, |x: ShardInner| x.used(), i, n);
        lemma_shard_sum_update(s, |x: ShardInner| x.lru().len() as int, i, n);
    }
}

impl MemoryEngine {
    /// Deletes `key`; true iff a live entry was removed. An expired entry is
    /// removed too, and reports false.
    pub fn delete(&mut self, key: &[u8]) -> (r: HkvResult<bool>)
        requires
            old(self).wf(),
        ensures
            final(self).wf(),
            final(self).same_frame(old(self)),
            old(self).clock() <= final(self).clock(),
            r matches Ok(b) && model_delete(old(self).entries(), key@, final(self).clock()) == (final(self).entries(), b),
            ({
                let e = old(self).entries();
                let k = key@;
                final(self).used() == old(self).used() - (if e.contains_key(k) {
                    entry_size(k, e[k])
                } else {
                    0
                })
            }),
            ({
                let e = old(self).entries();
                let k = key@;
                let i = old(self).shard_for(k);
                let l = old(self).shard(i).lru();
                &&& final(self).shard(i).lru() == (if e.contains_key(k) {
                    l.remove(l.index_of(k))
                } else {
                    l
                })
                &&& forall|j: int| 0 <= j < old(self).shard_count() && j != i ==> #[trigger] final(self).shard(j) == old(self).shard(j)
            }),
    {
        let now = self.tick();
        let ghost before = *self;
        let idx = self.shard_index(key);
        proof {
            before.lemma_wf();
            assert(before.shards@[idx as int].wf());
        }
        let (live_removed, freed) = self.shards[idx].delete_at(key, now);
        proof {
            MemoryEngine::lemma_shard_sum_update_used(before.shards@, idx as int, self.shards@[idx as int]);
            MemoryEngine::lemma_total_nonneg(self.shards@);
            if before.shards@[idx as int].entries().contains_key(key@) {
                before.shards@[idx as int].lemma_entry_size_fits(key@);
            }
        }
        if let Some(size) = freed {
            self.used_bytes = self.used_bytes - size;
        }
        proof {
            MemoryEngine::lemma_replace(before, *self, idx as int, key@);
        }
        Ok(live_removed)
    }

    /// Gives a live `key` the deadline `ttl_nanos` after now; a missing or
    /// expired key is `NotFound`, and an expired one is removed.
    pub fn expire(&mut self, key: &[u8], ttl_nanos: u64) -> (r: HkvResult<()>)
        requires
            old(self).wf(),
        ensures
            final(self).wf(),
            final(self).same_frame(old(self)),
            old(self).clock() <= final(self).clock(),
            r is Ok || r == Err::<(), HkvError>(HkvError::NotFound),
            model_expire(old(self).entries(), key@, ttl_nanos, final(self).clock()) == (final(self).entries(), r is Ok),
            ({
                let e = old(self).entries();
                let k = key@;
                final(self).used() == old(self).used() - (if e.contains_key(k) && expired(e[k], final(self).clock()) {
                    entry_size(k, e[k])
                } else {
                    0
                })
            }),
            ({
                let e = old(self).entries();
                let k = key@;
                let i = old(self).shard_for(k);
                let l = old(self).shard(i).lru();
                &&& final(self).shard(i).lru() == (if e.contains_key(k) && expired(e[k], final(self).clock()) {
                    l.remove(l.index_of(k))
                } else {
                    l
                })
                &&& forall|j: int| 0 <= j < old(self).shard_count() && j != i ==> #[trigger] final(self).shard(j) == old(self).shard(j)
            }),
    {
        let now = self.tick();
        let ghost before = *self;
        let idx = self.shard_index(key);
        proof {
            before.lemma_wf();
            assert(before.shards@[idx as int].wf());
        }
        let (r, freed) = self.shards[idx].expire_at(key, ttl_nanos, now);
        proof {
            MemoryEngine::lemma_shard_sum_update_used(before.shards@, idx as int, self.shards@[idx as int]);
            MemoryEngine::lemma_total_nonneg(self.shards@);
            if before.shards@[idx as int].entries().contains_key(key@) {
                before.shards@[idx as int].lemma_entry_size_fits(key@);
            }
        }
        if let Some(size) = freed {
            self.used_bytes = self.used_bytes - size;
        }
        proof {
            MemoryEngine::lemma_replace(before, *self, idx as int, key@);
        }
        r
    }

    /// The remaining lifetime of `key`, in nanoseconds; an expired entry is
    /// removed and reported missing.
    pub fn ttl(&mut self, key: &[u8]) -> (r: HkvResult<TtlStatus>)
        requires
            old(self).wf(),
        ensures
            final(self).wf(),
            final(self).same_frame(old(self)),
            old(self).clock() <= final(self).clock(),
            r matches Ok(t) && t == TtlStatus::of(model_ttl(old(self).entries(), key@, final(self).clock()).1),
            final(self).entries() == model_ttl(old(self).entries(), key@, final(self).clock()).0,
            ({
                let e = old(self).entries();
                let k = key@;
                final(self).used() == old(self).used() - (if e.contains_key(k) && expired(e[k], final(self).clock()) {
                    entry_size(k, e[k])
                } else {
                    0
                })
            }),
            ({
                let e = old(self).entries();
                let k = key@;
                let i = old(self).shard_for(k);
                let l = old(self).shard(i).lru();
                &&& final(self).shard(i).lru() == (if e.contains_key(k) && expired(e[k], final(self).clock()) {
                    l.remove(l.index_of(k))
                } else {
                    l
                })
                &&& forall|j: int| 0 <= j < old(self).shard_count() && j != i ==> #[trigger] final(self).shard(j) == old(self).shard(j)
            }),
    {
        let now = self.tick();
        let ghost before = *self;
        let idx = self.shard_index(key);
        proof {
            before.lemma_wf();
            assert(before.shards@[idx as int].wf());
        }
        let (status, freed) = self.shards[idx].ttl_at(key, now);
        proof {
            MemoryEngine::lemma_shard_sum_update_used(before.shards@, idx as int, self.shards@[idx as int]);
            MemoryEngine::lemma_total_nonneg(self.shards@);
            if before.shards@[idx as int].entries().contains_key(key@) {
                before.shards@[idx as int].lemma_entry_size_fits(key@);
            }
        }
        if let Some(size) = freed {
            self.used_bytes = self.used_bytes - size;
        }
        proof {
            MemoryEngine::lemma_replace(before, *self, idx as int, key@);
        }
        match status {
            ShardTtl::Missing => Ok(TtlStatus::Missing),
            ShardTtl::NoExpiry => Ok(TtlStatus::NoExpiry),
            ShardTtl::ExpiresIn(n) => Ok(TtlStatus::ExpiresIn(n)),
        }
    }
}

impl MemoryEngine {
    /// Evicts the least recently used entry of shard `j`: its size and key,
    /// or `None` when the shard is empty.
    fn pop_from(&mut self, j: usize) -> (r: Option<(usize, Ghost<Seq<u8>>)>)
        requires
            old(self).wf(),
            j < old(self).shard_count(),
        ensures
            final(self).wf(),
            final(self).same_frame(old(self)),
            final(self).clock() == old(self).clock(),
            forall|i: int| 0 <= i < old(self).shard_count() && i != j ==> #[trigger] final(self).shard(i) == old(self).shard(i),
            r is None ==> old(self).shard(j as int).lru().len() == 0 && *final(self) == *old(self),
            r matches Some((n, k)) ==> {
                &&& old(self).entries().contains_key(k@)
                &&& final(self).entries() == old(self).entries().remove(k@)
                &&& n == entry_size(k@, old(self).entries()[k@])
                &&& final(self).used() == old(self).used() - n
                &&& final(self).shard(j as int).lru() == old(self).shard(j as int).lru().drop_first()
                &&& old(self).shard(j as int).lru().len() > 0
                &&& k@ == old(self).shard(j as int).lru()[0]
            },
            total_count(final(self).shards@) == total_count(old(self).shards@) - (if r is Some { 1int } else { 0 }),
    {
        let ghost before = *self;
        proof {
            before.lemma_wf();
            before.shards@[j as int].lemma_wf_view();
        }
        if self.shards[j].is_empty() {
            return None;
        }
        let ghost k = if before.shards@[j as int].lru().len() > 0 {
            before.shards@[j as int].lru()[0]
        } else {
            Seq::<u8>::empty()
        };
        let popped = self.shards[j].pop_lru();
        proof {
            MemoryEngine::lemma_shard_sum_update_used(before.shards@, j as int, self.shards@[j as int]);
            MemoryEngine::lemma_total_nonneg(self.shards@);
        }
        match popped {
            None => None,
            Some(size) => {
                proof {
                    assert(before.shards@[j as int].lru().contains(k));
                    assert(before.shards@[j as int].entries().contains_key(k));
                    before.shards@[j as int].lemma_entry_size_fits(k);
                }
                self.used_bytes = self.used_bytes - size;
                proof {
                    MemoryEngine::lemma_replace(before, *self, j as int, k);
                }
                Some((size, Ghost(k)))
            },
        }
    }

    /// Evicts one entry, visiting shards in the order `start`, `start + 1`,
    /// ... modulo the shard count; `None` when every shard is empty.
    fn evict_one(&mut self, start: usize) -> (r: Option<(usize, Ghost<Seq<u8>>)>)
        requires
            old(self).wf(),
        ensures
            final(self).wf(),
            final(self).same_frame(old(self)),
            final(self).clock() == old(self).clock(),
            r is None ==> old(self).entries().is_empty() && final(self).entries() == old(self).entries()
                && final(self).used() == old(self).used() && final(self).shards@ == old(self).shards@,
            r matches Some((n, k)) ==> {
                &&& old(self).entries().contains_key(k@)
                &&& final(self).entries() == old(self).entries().remove(k@)
                &&& n == entry_size(k@, old(self).entries()[k@])
                &&& final(self).used() == old(self).used() - n
                &&& exists|j: int|
                    0 <= j < old(self).shard_count() && old(self).shard(j).lru().len() > 0 && k@ == old(self).shard(j).lru()[0]
                        && #[trigger] final(self).shard(j).lru() == old(self).shard(j).lru().drop_first() && forall|i: int|
                        0 <= i < old(self).shard_count() && i != j ==> #[trigger] final(self).shard(i) == old(self).shard(i)
            },
            total_count(final(self).shards@) == total_count(old(self).shards@) - (if r is Some { 1int } else { 0 }),
    {
        let ghost before = *self;
        let len = self.shards.len();
        let first = start % len;
        let mut j = first;
        while j < len
            invariant
                *self == before,
                before == *old(self),
                before.wf(),
                first <= j <= len,
                len == before.shards@.len(),
                forall|i: int| first <= i < j ==> (#[trigger] before.shard(i)).lru().len() == 0,
            decreases len - j,
        {
            let r = self.pop_from(j);
            if r.is_some() {
                proof {
                    assert(self.shard(j as int).lru() == before.shard(j as int).lru().drop_first());
                }
                return r;
            }
            j = j + 1;
        }
        let mut j: usize = 0;
        while j < first
            invariant
                *self == before,
                before == *old(self),
                before.wf(),
                first <= len,
                j <= first,
                len == before.shards@.len(),
                forall|i: int| first <= i < len ==> (#[trigger] before.shard(i)).lru().len() == 0,
                forall|i: int| 0 <= i < j ==> (#[trigger] before.shard(i)).lru().len() == 0,
            decreases first - j,
        {
            let r = self.pop_from(j);
            if r.is_some() {
                proof {
                    assert(self.shard(j as int).lru() == before.shard(j as int).lru().drop_first());
                }
                return r;
            }
            j = j + 1;
        }
        proof {
            before.lemma_wf();
            assert(forall|i: int| 0 <= i < before.shard_count() ==> (#[trigger] before.shard(i)).lru().len() == 0);
        }
        None
    }
}

proof fn lemma_seq_sum_take(s: Seq<usize>, j: int)
    requires
        0 <= j < s.len(),
    ensures
        seq_sum(s.take(j + 1)) == seq_sum(s.take(j)) + s[j],
        seq_sum(s.take(j + 1)) <= seq_sum(s),
    decreases s.len() - j,
{
    assert(s.take(j + 1).drop_last() =~= s.take(j));
    if j + 1 == s.len() {
        assert(s.take(j + 1) =~= s);
    } else {
        lemma_seq_sum_take(s, j + 1);
    }
}

impl MemoryEngine {
    /// The number of entries over all shards.
    pub closed spec fn count(&self) -> int {
        total_count(self.shards@)
    }

    /// Evicts least recently used entries, shards visited round-robin from
    /// a moving start, while the byte count is over budget (with a zero
    /// budget, until nothing is left).
    fn evict_if_needed(&mut self)
        requires
            old(self).wf(),
        ensures
            final(self).wf(),
            final(self).same_frame(old(self)),
            final(self).clock() == old(self).clock(),
            kept_from(final(self).entries(), old(self).entries()),
            forall|j: int|
                0 <= j < old(self).shard_count() ==> is_suffix(#[trigger] final(self).shard(j).lru(), old(self).shard(j).lru()),
            final(self).used() <= final(self).capacity(),
            final(self).capacity() == 0 ==> final(self).entries().is_empty(),
            old(self).used() <= old(self).capacity() && old(self).capacity() != 0 ==> *final(self) == *old(self),
            final(self).used() <= old(self).used(),
            final(self).entries() != old(self).entries() ==> exists|j: int, n: int|
                0 <= j < old(self).shard_count() && 0 < n <= old(self).shard(j).lru().len() && final(self).shard(j).lru()
                    == #[trigger] old(self).shard(j).lru().skip(n) && (final(self).used() + entry_size(
                    old(self).shard(j).lru()[n - 1],
                    old(self).entries()[old(self).shard(j).lru()[n - 1]],
                ) > final(self).capacity() || final(self).capacity() == 0),
    {
        let ghost start = *self;
        let ghost mut lj: int = 0;
        let ghost mut ln: int = 0;
        proof {
            assert forall|j: int| 0 <= j < start.shard_count() implies is_suffix(#[trigger] self.shard(j).lru(), start.shard(j).lru()) by {
                assert(start.shard(j).lru().skip(0) =~= start.shard(j).lru());
            }
        }
        loop
            invariant
                start == *old(self),
                start.wf(),
                self.wf(),
                self.same_frame(&start),
                self.clock() == start.clock(),
                kept_from(self.entries(), start.entries()),
                forall|j: int| 0 <= j < start.shard_count() ==> is_suffix(#[trigger] self.shard(j).lru(), start.shard(j).lru()),
                self.used() <= start.used(),
                self.entries() != start.entries() ==> 0 <= lj < start.shard_count() && 0 < ln <= start.shard(lj).lru().len()
                    && self.shard(lj).lru() == start.shard(lj).lru().skip(ln) && (self.used() + entry_size(
                    start.shard(lj).lru()[ln - 1],
                    start.entries()[start.shard(lj).lru()[ln - 1]],
                ) > self.capacity() || self.capacity() == 0),
                start.used() <= start.capacity() && start.capacity() != 0 ==> *self == start,
            decreases total_count(self.shards@),
        {
            if self.used_bytes <= self.max_bytes && self.max_bytes != 0 {
                return;
            }
            let ghost head = *self;
            let from = self.eviction_cursor;
            self.eviction_cursor = from.wrapping_add(1);
            let ghost mid = *self;
            proof {
                assert(mid.shards == head.shards);
                assert(mid.entries() == head.entries());
                assert(forall|j: int| #[trigger] mid.shard(j) == head.shard(j));
            }
            proof {
                lemma_shard_sum_nonneg(self.shards@, |x: ShardInner| x.lru().len() as int);
            }
            match self.evict_one(from) {
                None => {
                    proof {
                        assert(forall|j: int| #[trigger] self.shard(j) == head.shard(j));
                        self.lemma_wf();
                        assert forall|i: int| 0 <= i < self.shards@.len() implies (#[trigger] self.shards@[i]).used() == 0 by {
                            assert(self.shard(i).lru().len() == 0);
                            self.shards@[i].lemma_wf_view();
                        }
                        lemma_shard_sum_zero(self.shards@, |x: ShardInner| x.used());
                    }
                    return;
                },
                Some((n, k)) => {
                    proof {
                        assert(total_count(mid.shards@) == total_count(head.shards@));
                        assert(total_count(self.shards@) < total_count(head.shards@));
                        assert(total_count(head.shards@) >= 0);
                        lemma_shard_sum_nonneg(self.shards@, |x: ShardInner| x.lru().len() as int);
                        let jj = choose|j: int|
                            0 <= j < mid.shard_count() && mid.shard(j).lru().len() > 0 && k@ == mid.shard(j).lru()[0]
                                && #[trigger] self.shard(j).lru() == mid.shard(j).lru().drop_first() && forall|i: int|
                                0 <= i < mid.shard_count() && i != j ==> #[trigger] self.shard(i) == mid.shard(i);
                        assert(is_suffix(mid.shard(jj).lru(), start.shard(jj).lru()));
                        let mm = choose|m: int|
                            0 <= m <= start.shard(jj).lru().len() && mid.shard(jj).lru() == #[trigger] start.shard(jj).lru().skip(m);
                        assert(self.shard(jj).lru() =~= start.shard(jj).lru().skip(mm + 1));
                        assert(k@ == start.shard(jj).lru()[mm]);
                        lj = jj;
                        ln = mm + 1;
                        assert forall|j: int| 0 <= j < start.shard_count() implies is_suffix(#[trigger] self.shard(j).lru(), start.shard(j).lru()) by {
                            assert(is_suffix(mid.shard(j).lru(), start.shard(j).lru()));
                            let m0 = choose|m: int|
                                0 <= m <= start.shard(j).lru().len() && mid.shard(j).lru() == #[trigger] start.shard(j).lru().skip(m);
                            if self.shard(j).lru() != mid.shard(j).lru() {
                                assert(self.shard(j).lru() =~= start.shard(j).lru().skip(m0 + 1));
                            }
                        }
                        if self.entries() == start.entries() {
                            assert(mid.entries().contains_key(k@));
                            assert(!self.entries().contains_key(k@));
                        }
                    }
                },
            }
        }
    }

    /// Stores `value` under `key` without expiration, as the most recently
    /// used entry of its shard, then evicts while over the byte budget.
    pub fn set(&mut self, key: Vec<u8>, value: Vec<u8>) -> (r: HkvResult<()>)
        requires
            old(self).wf(),
            old(self).used() + key@.len() + value@.len() <= usize::MAX,
        ensures
            r is Ok,
            set_effect(old(self), final(self), key@, value@),
    {
        let now = self.tick();
        let ghost before = *self;
        let idx = self.shard_index(key.as_slice());
        let ghost k = key@;
        let ghost v = value@;
        proof {
            before.lemma_wf();
            assert(before.shards@[idx as int].wf());
        }
        let (freed, added) = self.shards[idx].set_at(key, value, now);
        proof {
            if before.shards@[idx as int].entries().contains_key(k) {
                before.shards@[idx as int].lemma_entry_size_fits(k);
            }
            MemoryEngine::lemma_shard_sum_update_used(before.shards@, idx as int, self.shards@[idx as int]);
            MemoryEngine::lemma_total_nonneg(self.shards@);
        }
        if added >= freed {
            self.used_bytes = self.used_bytes + (added - freed);
        } else {
            self.used_bytes = self.used_bytes - (freed - added);
        }
        proof {
            MemoryEngine::lemma_replace(before, *self, idx as int, k);
            assert(self.entries() == model_set(before.entries(), k, v));
            let i = idx as int;
            let l = before.shard(i).lru();
            assert(self.shard(i).lru() == (if before.entries().contains_key(k) {
                l.remove(l.index_of(k)).push(k)
            } else {
                l.push(k)
            }));
            assert(self.used() == before.used() - (if before.entries().contains_key(k) {
                entry_size(k, before.entries()[k])
            } else {
                0
            }) + k.len() + v.len());
        }
        let ghost mid = *self;
        self.evict_if_needed();
        proof {
            let i = idx as int;
            assert forall|j: int| 0 <= j < before.shard_count() && j != i implies #[trigger] mid.shard(j) == before.shard(j) by {}
            assert forall|j: int| 0 <= j < before.shard_count() implies #[trigger] mid.shard(j).lru() == set_lru(&before, k, j) by {}
            if self.entries() != mid.entries() {
                let (j, n) = choose|j: int, n: int|
                    0 <= j < mid.shard_count() && 0 < n <= mid.shard(j).lru().len() && self.shard(j).lru()
                        == #[trigger] mid.shard(j).lru().skip(n) && (self.used() + entry_size(
                        mid.shard(j).lru()[n - 1],
                        mid.entries()[mid.shard(j).lru()[n - 1]],
                    ) > self.capacity() || self.capacity() == 0);
                assert(mid.shard(j).lru() == set_lru(&before, k, j));
                assert(self.shard(j).lru() == set_lru(&before, k, j).skip(n));
                assert(before.shards == old(self).shards);
                assert(set_lru(&before, k, j) == set_lru(old(self), k, j));
                assert(mid.entries() == model_set(old(self).entries(), k, v));
                assert(self.shard(j).lru() == set_lru(old(self), k, j).skip(n));
                assert(self.used() + entry_size(set_lru(old(self), k, j)[n - 1], model_set(old(self).entries(), k, v)[set_lru(old(self), k, j)[n - 1]]) > self.capacity() || self.capacity() == 0);
            }
        }
        Ok(())
    }
}

/// `total` less every size in `sizes`.
fn subtract_all(total: usize, sizes: &Vec<usize>) -> (r: usize)
    requires
        seq_sum(sizes@) <= total,
    ensures
        r == total - seq_sum(sizes@),
{
    let mut left = total;
    let mut j: usize = 0;
    while j < sizes.len()
        invariant
            j <= sizes@.len(),
            seq_sum(sizes@) <= total,
            left == total - seq_sum(sizes@.take(j as int)),
        decreases sizes@.len() - j,
    {
        proof {
            lemma_seq_sum_take(sizes@, j as int);
        }
        left = left - sizes[j];
        j = j + 1;
    }
    assert(sizes@.take(j as int) =~= sizes@);
    left
}

impl MemoryEngine {
    /// Removes every entry expired at `now` (or at the engine's clock, if
    /// that is later), one shard at a time; returns how many were removed.
    pub fn purge_expired(&mut self, now: Instant) -> (r: usize)
        requires
            old(self).wf(),
        ensures
            final(self).wf(),
            final(self).same_frame(old(self)),
            old(self).clock() <= final(self).clock(),
            forall|k: Seq<u8>|
                #[trigger] final(self).entries().contains_key(k) <==> old(self).entries().contains_key(k) && !expired(
                    old(self).entries()[k],
                    final(self).clock(),
                ),
            kept_from(final(self).entries(), old(self).entries()),
            forall|j: int| 0 <= j < old(self).shard_count() ==> keeps_order(#[trigger] final(self).shard(j).lru(), old(self).shard(j).lru()),
            r == (if old(self).count() - final(self).count() > usize::MAX {
                usize::MAX as int
            } else {
                old(self).count() - final(self).count()
            }),
    {
        let at = self.nanos_at(&now);
        if at > self.last_now {
            self.last_now = at;
        }
        let t = self.last_now;
        let ghost start = *self;
        let mut removed: usize = 0;
        let mut i: usize = 0;
        proof {
            start.lemma_wf();
        }
        while i < self.shards.len()
            invariant
                start.wf(),
                start.clock() == t,
                self.wf(),
                self.same_frame(&start),
                self.clock() == t,
                i <= self.shards@.len(),
                forall|j: int| i <= j < self.shards@.len() ==> #[trigger] self.shards@[j] == start.shards@[j],
                forall|j: int, k: Seq<u8>|
                    0 <= j < i ==> (#[trigger] self.shards@[j].entries().contains_key(k) <==> start.shards@[j].entries().contains_key(k)
                        && !expired(start.shards@[j].entries()[k], t)),
                forall|j: int, k: Seq<u8>|
                    0 <= j < i && #[trigger] self.shards@[j].entries().contains_key(k) ==> self.shards@[j].entries()[k]
                        == start.shards@[j].entries()[k],
                removed == (if start.count() - self.count() > usize::MAX {
                    usize::MAX as int
                } else {
                    start.count() - self.count()
                }),
                start.count() >= self.count(),
                forall|j: int| 0 <= j < i ==> keeps_order(#[trigger] self.shards@[j].lru(), start.shards@[j].lru()),
            decreases self.shards@.len() - i,
        {
            let ghost before = *self;
            proof {
                before.lemma_wf();
            }
            let sizes = self.shards[i].purge_expired_at(t);
            proof {
                MemoryEngine::lemma_shard_sum_update_used(before.shards@, i as int, self.shards@[i as int]);
                MemoryEngine::lemma_total_nonneg(self.shards@);
            }
            self.used_bytes = subtract_all(self.used_bytes, &sizes);
            proof {
                assert forall|jj: int, k: Seq<u8>|
                    0 <= jj < self.shards@.len() && #[trigger] self.shards@[jj].entries().contains_key(k) implies shard_of(
                        self.seed@,
                        k,
                        self.shard_mask,
                    ) == jj by {
                    if jj == i {
                        assert(before.shards@[i as int].entries().contains_key(k));
                    } else {
                        assert(self.shards@[jj] == before.shards@[jj]);
                    }
                }
                assert(self.wf());
            }
            let gone = sizes.len();
            removed = if removed > usize::MAX - gone {
                usize::MAX
            } else {
                removed + gone
            };
            i = i + 1;
            proof {
                assert forall|jj: int| i <= jj < self.shards@.len() implies #[trigger] self.shards@[jj] == start.shards@[jj] by {
                    assert(self.shards@[jj] == before.shards@[jj]);
                }
                assert forall|jj: int, k: Seq<u8>|
                    0 <= jj < i implies (#[trigger] self.shards@[jj].entries().contains_key(k) <==> start.shards@[jj].entries().contains_key(k)
                        && !expired(start.shards@[jj].entries()[k], t)) by {
                    if jj < i - 1 {
                        assert(self.shards@[jj] == before.shards@[jj]);
                    } else {
                        assert(before.shards@[jj] == start.shards@[jj]);
                    }
                }
                assert forall|jj: int| 0 <= jj < i implies keeps_order(#[trigger] self.shards@[jj].lru(), start.shards@[jj].lru()) by {
                    if jj < i - 1 {
                        assert(self.shards@[jj] == before.shards@[jj]);
                    } else {
                        assert(before.shards@[jj] == start.shards@[jj]);
                    }
                }
                assert forall|jj: int, k: Seq<u8>|
                    0 <= jj < i && #[trigger] self.shards@[jj].entries().contains_key(k) implies self.shards@[jj].entries()[k]
                        == start.shards@[jj].entries()[k] by {
                    if jj < i - 1 {
                        assert(self.shards@[jj] == before.shards@[jj]);
                    } else {
                        assert(before.shards@[jj] == start.shards@[jj]);
                    }
                }
            }
        }
        proof {
            start.lemma_wf();
            self.lemma_wf();
            assert forall|k: Seq<u8>|
                #[trigger] self.entries().contains_key(k) <==> start.entries().contains_key(k) && !expired(start.entries()[k], t) by {
                assert(self.shard_for(k) == start.shard_for(k));
            }
        }
        removed
    }
}

/// The calls of a run, each stamped with the clock of the state it left.
pub open spec fn timed_run(runs: Seq<MemoryEngine>, ops: Seq<Op>) -> Seq<(Op, u64)> {
    Seq::new(ops.len(), |i: int| (ops[i], runs[i + 1].clock()))
}

/// A run of engine states, each the result of one call on the one before,
/// as the calls' contracts state them for an engine without byte budget.
pub open spec fn is_run(runs: Seq<MemoryEngine>, ops: Seq<Op>) -> bool {
    &&& runs.len() == ops.len() + 1
    &&& forall|i: int|
        0 <= i < ops.len() ==> (#[trigger] runs[i + 1]).entries() == model_step(runs[i].entries(), ops[i], runs[i + 1].clock())
    &&& forall|i: int, j: int| 0 <= i < j < runs.len() ==> runs[i].clock() <= runs[j].clock()
}

proof fn lemma_run_is_replay(runs: Seq<MemoryEngine>, ops: Seq<Op>, n: int)
    requires
        is_run(runs, ops),
        0 <= n <= ops.len(),
    ensures
        replay(runs[0].entries(), timed_run(runs, ops).take(n)) == runs[n].entries(),
    decreases n,
{
    let t = timed_run(runs, ops);
    if n == 0 {
        assert(t.take(0) =~= Seq::<(Op, u64)>::empty());
    } else {
        lemma_run_is_replay(runs, ops, n - 1);
        assert(t.take(n).drop_last() =~= t.take(n - 1));
        assert(t.take(n).last() == (ops[n - 1], runs[n].clock()));
        assert(runs[(n - 1) + 1] == runs[n]);
    }
}

/// Over any run of `get`, `set`, `delete` and `expire` calls on an engine
/// without byte budget, whatever the hashing seed, the keys live at the end
/// (readable by `get`) are exactly those a plain dictionary, checking
/// deadlines only when read, holds live, with the same entries.
pub proof fn lemma_engine_run_matches_reference(runs: Seq<MemoryEngine>, ops: Seq<Op>, now: u64)
    requires
        is_run(runs, ops),
        runs.last().clock() <= now,
    ensures
        forall|k: Seq<u8>|
            #[trigger] live(runs.last().entries(), k, now) <==> live(
                reference(runs[0].entries(), timed_run(runs, ops)),
                k,
                now,
            ),
        forall|k: Seq<u8>|
            #[trigger] live(runs.last().entries(), k, now) ==> runs.last().entries()[k] == reference(
                runs[0].entries(),
                timed_run(runs, ops),
            )[k],
{
    let t = timed_run(runs, ops);
    lemma_run_is_replay(runs, ops, ops.len() as int);
    assert(t.take(ops.len() as int) =~= t);
    assert(timed_up_to(t, now)) by {
        assert forall|i: int| 0 <= i < t.len() implies #[trigger] t[i].1 <= now by {
            assert(runs[i + 1].clock() <= runs[runs.len() - 1].clock() || i + 1 == runs.len() - 1);
        }
        assert forall|i: int, j: int| 0 <= i < j < t.len() implies t[i].1 <= t[j].1 by {
            assert(runs[i + 1].clock() <= runs[j + 1].clock());
        }
    }
    lemma_replay_matches_reference(runs[0].entries(), t, now);
}

} // verus!
