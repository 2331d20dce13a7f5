//! The quorum accumulator: collects contributed values under shared keys
//! inside a bounded ordered cache and reports, whenever a key's collection
//! has reached the quorum threshold, a snapshot of that collection.
//!
//! Contracts speak of the accumulator's *model*: the cache contents with
//! every collection read as a sequence. `step_add` is the one-step
//! transition of `add`, and the laws module proves the global properties
//! of runs of these steps.

use vstd::prelude::*;

use crate::cache::distinct_keys;
use crate::cache::inserted_seq;
use crate::cache::lemma_live_distinct;
use crate::cache::lemma_live_identity;
use crate::cache::lemma_live_members;
use crate::cache::lemma_map_inserted;
use crate::cache::lemma_map_keys;
use crate::cache::lemma_map_live;
use crate::cache::lemma_map_removed;
use crate::cache::lemma_remove_distinct;
use crate::cache::lemma_remove_then_insert;
use crate::cache::live_seq;
use crate::cache::map_payloads;
use crate::cache::removed_seq;
use crate::cache::seq_has_key;
use crate::cache::seq_key_index;
use crate::cache::Bound;
use crate::cache::Cache;
use crate::cache::CacheEntry;
use crate::clock;

verus! {

/// How repeated contributions of equal values are treated.
#[derive(Clone, Copy, PartialEq, Eq, Structural, Debug)]
pub enum Policy {
    /// Equal values are merged: a key reaches quorum only once that many
    /// distinct values were contributed.
    Dedup,
    /// Every contribution is retained, exact duplicates included.
    KeepAll,
}

/// Reading a collection as the sequence of its values.
pub open spec fn vec_view() -> spec_fn(Vec<u32>) -> Seq<u32> {
    |v: Vec<u32>| v@
}

/// One collection as held per key: non-empty, and free of duplicates
/// under the dedup policy.
pub open spec fn payload_ok(e: CacheEntry<Vec<u32>>, policy: Policy) -> bool {
    &&& e.payload@.len() >= 1
    &&& policy == Policy::Dedup ==> e.payload@.no_duplicates()
}

/// Every held collection is as `payload_ok` demands.
pub open spec fn entries_ok(s: Seq<CacheEntry<Vec<u32>>>, policy: Policy) -> bool {
    forall|i: int| 0 <= i < s.len() ==> #[trigger] payload_ok(s[i], policy)
}

/// A key's collection appended to under `policy`: a duplicate is dropped
/// by `Dedup` and kept by `KeepAll`.
pub open spec fn stepped_values(policy: Policy, vs: Seq<u32>, v: u32) -> Seq<u32> {
    if policy == Policy::Dedup && vs.contains(v) {
        vs
    } else {
        vs.push(v)
    }
}

/// The collection assembled by one `add` of `v` under `k` at time `now`:
/// the key's live collection appended to under the policy, or a fresh
/// singleton when the key holds nothing live.
pub open spec fn gathered_values(
    m: Seq<CacheEntry<Seq<u32>>>,
    b: Bound,
    policy: Policy,
    k: i32,
    v: u32,
    now: u64,
) -> Seq<u32> {
    let live = live_seq(m, b, now);
    if seq_has_key(live, k) {
        stepped_values(policy, live[seq_key_index(live, k)].payload, v)
    } else {
        seq![v]
    }
}

/// The model after one `add`: the assembled collection is stored under
/// `k` by the cache's insertion discipline.
pub open spec fn step_add(
    m: Seq<CacheEntry<Seq<u32>>>,
    b: Bound,
    policy: Policy,
    k: i32,
    v: u32,
    now: u64,
) -> Seq<CacheEntry<Seq<u32>>> {
    inserted_seq(m, b, k, gathered_values(m, b, policy, k, v, now), now)
}

/// The collection currently visible under `k` at time `now`, if any.
pub open spec fn lookup(m: Seq<CacheEntry<Seq<u32>>>, b: Bound, k: i32, now: u64) -> Option<
    Seq<u32>,
> {
    let live = live_seq(m, b, now);
    if seq_has_key(live, k) {
        Some(live[seq_key_index(live, k)].payload)
    } else {
        None
    }
}

/// Whether the collection visible under `k` at reading `now` has at
/// least `threshold` values; an absent key never meets the threshold.
pub open spec fn quorum_met(
    m: Seq<CacheEntry<Seq<u32>>>,
    b: Bound,
    threshold: usize,
    k: i32,
    now: u64,
) -> bool {
    match lookup(m, b, k, now) {
        Some(vs) => vs.len() >= threshold,
        None => false,
    }
}

/// An optional snapshot, read as an optional sequence.
pub open spec fn opt_view(r: Option<Vec<u32>>) -> Option<Seq<u32>> {
    match r {
        Some(v) => Some(v@),
        None => None,
    }
}

/// Everything one call of `add` effects and reports, at reading `now`:
/// the threshold, policy and bound are kept; the model takes one
/// `step_add`; and the result is a snapshot of the assembled collection
/// exactly when that collection has reached the threshold.
pub open spec fn add_transition(
    pre: Accumulator,
    post: Accumulator,
    key: i32,
    value: u32,
    r: Option<Vec<u32>>,
    now: u64,
) -> bool {
    &&& post.quorum == pre.quorum
    &&& post.policy == pre.policy
    &&& post.cache.bound == pre.cache.bound
    &&& post.model() == step_add(pre.model(), pre.cache.bound, pre.policy, key, value, now)
    &&& (match r {
        Some(vs) => vs@ == gathered_values(pre.model(), pre.cache.bound, pre.policy, key, value, now)
            && vs@.len() >= pre.quorum,
        None => gathered_values(pre.model(), pre.cache.bound, pre.policy, key, value, now).len()
            < pre.quorum,
    })
}

/// A key-value store limited by size or time, allowing accumulation of
/// multiple values under a single key.
pub struct Accumulator {
    pub quorum: usize,
    pub policy: Policy,
    pub cache: Cache<Vec<u32>>,
}

/// `payload_ok` survives the liveness filter.
proof fn lemma_entries_ok_live(s: Seq<CacheEntry<Vec<u32>>>, policy: Policy, b: Bound, now: u64)
    requires
        entries_ok(s, policy),
    ensures
        entries_ok(live_seq(s, b, now), policy),
{
    lemma_live_members(s, b, now);
    let live = live_seq(s, b, now);
    assert forall|i: int| 0 <= i < live.len() implies #[trigger] payload_ok(live[i], policy) by {
        assert(s.contains(live[i]));
        let j = choose|j: int| 0 <= j < s.len() && s[j] == live[i];
        assert(payload_ok(s[j], policy));
    }
}

/// `payload_ok` survives removal of a key.
proof fn lemma_entries_ok_removed(
    s: Seq<CacheEntry<Vec<u32>>>,
    policy: Policy,
    b: Bound,
    k: i32,
    now: u64,
)
    requires
        entries_ok(s, policy),
        distinct_keys(s),
    ensures
        entries_ok(removed_seq(s, b, k, now), policy),
{
    lemma_entries_ok_live(s, policy, b, now);
    lemma_live_distinct(s, b, now);
    let live = live_seq(s, b, now);
    if seq_has_key(live, k) {
        let i = seq_key_index(live, k);
        assert(0 <= i < live.len() && live[i].key == k);
        live.remove_ensures(i);
        let t = live.remove(i);
        assert forall|j: int| 0 <= j < t.len() implies #[trigger] payload_ok(t[j], policy) by {
            if j < i {
                assert(t[j] == live[j]);
                assert(payload_ok(live[j], policy));
            } else {
                assert(t[j] == live[j + 1]);
                assert(payload_ok(live[j + 1], policy));
            }
        }
    }
}

/// `payload_ok` survives insertion of a collection that itself obeys it.
proof fn lemma_entries_ok_inserted(
    s: Seq<CacheEntry<Vec<u32>>>,
    policy: Policy,
    b: Bound,
    k: i32,
    v: Vec<u32>,
    now: u64,
)
    requires
        entries_ok(s, policy),
        distinct_keys(s),
        payload_ok(CacheEntry { key: k, payload: v, stamp: b.fresh_stamp(now) }, policy),
    ensures
        entries_ok(inserted_seq(s, b, k, v, now), policy),
{
    lemma_entries_ok_live(s, policy, b, now);
    lemma_live_distinct(s, b, now);
    let live = live_seq(s, b, now);
    let e = CacheEntry { key: k, payload: v, stamp: b.fresh_stamp(now) };
    let out = inserted_seq(s, b, k, v, now);
    if seq_has_key(live, k) {
        let i = seq_key_index(live, k);
        assert(0 <= i < live.len() && live[i].key == k);
        live.remove_ensures(i);
        let t = live.remove(i);
        assert forall|j: int| 0 <= j < out.len() implies #[trigger] payload_ok(out[j], policy) by {
            if j < t.len() {
                assert(out[j] == t[j]);
                if j < i {
                    assert(t[j] == live[j]);
                    assert(payload_ok(live[j], policy));
                } else {
                    assert(t[j] == live[j + 1]);
                    assert(payload_ok(live[j + 1], policy));
                }
            } else {
                assert(out[j] == e);
            }
        }
    } else {
        match b {
            Bound::Capacity(cap) => {
                if cap == 0 {
                } else if live.len() >= cap {
                    let t = live.subrange(1, live.len() as int);
                    assert forall|j: int| 0 <= j < out.len() implies #[trigger] payload_ok(
                        out[j],
                        policy,
                    ) by {
                        if j < t.len() {
                            assert(out[j] == t[j]);
                            assert(t[j] == live[j + 1]);
                            assert(payload_ok(live[j + 1], policy));
                        } else {
                            assert(out[j] == e);
                        }
                    }
                } else {
                    assert forall|j: int| 0 <= j < out.len() implies #[trigger] payload_ok(
                        out[j],
                        policy,
                    ) by {
                        if j < live.len() {
                            assert(out[j] == live[j]);
                            assert(payload_ok(live[j], policy));
                        } else {
                            assert(out[j] == e);
                        }
                    }
                }
            },
            Bound::Expiry(_) => {
                assert forall|j: int| 0 <= j < out.len() implies #[trigger] payload_ok(
                    out[j],
                    policy,
                ) by {
                    if j < live.len() {
                        assert(out[j] == live[j]);
                        assert(payload_ok(live[j], policy));
                    } else {
                        assert(out[j] == e);
                    }
                }
            },
        }
    }
}

/// Under a capacity bound nothing ever expires: the live view is the
/// whole model, whatever the clock reads.
pub proof fn lemma_capacity_time_free(m: Seq<CacheEntry<Seq<u32>>>, cap: usize, now: u64)
    ensures
        live_seq(m, Bound::Capacity(cap), now) == m,
{
    assert(forall|i: int|
        0 <= i < m.len() ==> Bound::Capacity(cap).alive((#[trigger] m[i]).stamp, now));
    lemma_live_identity(m, Bound::Capacity(cap), now);
}

/// Under a capacity bound, one `add` step reads the same whatever the
/// clock says: the reading never influences the outcome.
pub proof fn lemma_capacity_step_time_free(
    m: Seq<CacheEntry<Seq<u32>>>,
    cap: usize,
    policy: Policy,
    k: i32,
    v: u32,
    n1: u64,
    n2: u64,
)
    ensures
        step_add(m, Bound::Capacity(cap), policy, k, v, n1) == step_add(
            m,
            Bound::Capacity(cap),
            policy,
            k,
            v,
            n2,
        ),
        gathered_values(m, Bound::Capacity(cap), policy, k, v, n1) == gathered_values(
            m,
            Bound::Capacity(cap),
            policy,
            k,
            v,
            n2,
        ),
        lookup(m, Bound::Capacity(cap), k, n1) == lookup(m, Bound::Capacity(cap), k, n2),
{
    lemma_capacity_time_free(m, cap, n1);
    lemma_capacity_time_free(m, cap, n2);
}

/// Whether any collection is currently held under `key`.
fn vec_contains(vals: &Vec<u32>, v: u32) -> (r: bool)
    ensures
        r == vals@.contains(v),
{
    let mut i: usize = 0;
    while i < vals.len()
        invariant
            i <= vals@.len(),
            forall|j: int| 0 <= j < i ==> vals@[j] != v,
        decreases vals@.len() - i,
    {
        if vals[i] == v {
            proof {
                assert(vals@[i as int] == v);
            }
            return true;
        }
        i = i + 1;
    }
    false
}

/// An independent copy of a collection, for snapshots handed out.
fn vec_copy(vals: &Vec<u32>) -> (r: Vec<u32>)
    ensures
        r@ == vals@,
{
    let mut r: Vec<u32> = Vec::new();
    let mut i: usize = 0;
    while i < vals.len()
        invariant
            i <= vals@.len(),
            r@ == vals@.take(i as int),
        decreases vals@.len() - i,
    {
        r.push(vals[i]);
        proof {
            assert(r@ =~= vals@.take(i as int + 1));
        }
        i = i + 1;
    }
    proof {
        assert(vals@.take(vals@.len() as int) =~= vals@);
    }
    r
}

impl Accumulator {
    /// Well-formedness: the cache is well-formed and every held
    /// collection is non-empty and, under `Dedup`, free of duplicates.
    pub open spec fn wf(self) -> bool {
        &&& self.cache.wf()
        &&& entries_ok(self.cache.entries@, self.policy)
    }

    /// The cache contents with every collection read as a sequence,
    /// still in least-recently-touched-first order.
    pub open spec fn model(self) -> Seq<CacheEntry<Seq<u32>>> {
        map_payloads(self.cache.entries@, vec_view())
    }

    /// Capacity-bounded accumulator with an explicit duplicate policy.
    pub fn with_capacity_policy(quorum: usize, capacity: usize, policy: Policy) -> (r:
        Accumulator)
        ensures
            r.wf(),
            r.quorum == quorum,
            r.policy == policy,
            r.cache.bound == Bound::Capacity(capacity),
            r.model().len() == 0,
    {
        Accumulator { quorum, policy, cache: Cache::with_capacity(capacity) }
    }

    /// Capacity-bounded accumulator; equal values are merged.
    ///
    /// `quorum` defines the count at and above which `add` returns `Some`.
    /// Callers are expected to pass a positive capacity: with a capacity
    /// of zero nothing is ever retained, though each call still reports
    /// the collection it assembled.
    pub fn with_capacity(quorum: usize, capacity: usize) -> (r: Accumulator)
        ensures
            r.wf(),
            r.quorum == quorum,
            r.policy == Policy::Dedup,
            r.cache.bound == Bound::Capacity(capacity),
            r.model().len() == 0,
    {
        Accumulator::with_capacity_policy(quorum, capacity, Policy::Dedup)
    }

    /// Age-bounded accumulator with an explicit duplicate policy; the
    /// age limit is given in milliseconds.
    pub fn with_duration_policy(quorum: usize, duration_ms: u64, policy: Policy) -> (r:
        Accumulator)
        ensures
            r.wf(),
            r.quorum == quorum,
            r.policy == policy,
            r.cache.bound == Bound::Expiry(duration_ms),
            r.model().len() == 0,
    {
        Accumulator { quorum, policy, cache: Cache::with_expiry(duration_ms) }
    }

    /// Age-bounded accumulator; equal values are merged.
    ///
    /// `quorum` defines the count at and above which `add` returns `Some`.
    /// Callers are expected to pass a positive age bound: with a bound of
    /// zero an entry outlives only the very reading that wrote it.
    pub fn with_duration(quorum: usize, duration_ms: u64) -> (r: Accumulator)
        ensures
            r.wf(),
            r.quorum == quorum,
            r.policy == Policy::Dedup,
            r.cache.bound == Bound::Expiry(duration_ms),
            r.model().len() == 0,
    {
        Accumulator::with_duration_policy(quorum, duration_ms, Policy::Dedup)
    }

    /// Whether `key` currently holds a live collection, at reading `now`.
    pub fn contains_key_at(&self, key: &i32, now: u64) -> (r: bool)
        requires
            self.wf(),
        ensures
            r == (lookup(self.model(), self.cache.bound, *key, now) is Some),
    {
        proof {
            lemma_map_live(self.cache.entries@, vec_view(), self.cache.bound, now);
            lemma_live_distinct(self.cache.entries@, self.cache.bound, now);
            lemma_map_keys(self.cache.live_entries(now), vec_view());
        }
        match self.cache.peek(*key, now) {
            Some(_) => true,
            None => false,
        }
    }

    /// Whether `key` holds a live collection of at least `quorum` values,
    /// at reading `now`.
    pub fn is_quorum_reached_at(&self, key: &i32, now: u64) -> (r: bool)
        requires
            self.wf(),
        ensures
            r == quorum_met(self.model(), self.cache.bound, self.quorum, *key, now),
    {
        proof {
            lemma_map_live(self.cache.entries@, vec_view(), self.cache.bound, now);
            lemma_live_distinct(self.cache.entries@, self.cache.bound, now);
            lemma_map_keys(self.cache.live_entries(now), vec_view());
        }
        match self.cache.peek(*key, now) {
            Some(v) => v.len() >= self.quorum,
            None => false,
        }
    }

    /// A snapshot of the collection under `key`, at reading `now`.
    pub fn get_at(&self, key: &i32, now: u64) -> (r: Option<Vec<u32>>)
        requires
            self.wf(),
        ensures
            opt_view(r) == lookup(self.model(), self.cache.bound, *key, now),
    {
        proof {
            lemma_map_live(self.cache.entries@, vec_view(), self.cache.bound, now);
            lemma_live_distinct(self.cache.entries@, self.cache.bound, now);
            lemma_map_keys(self.cache.live_entries(now), vec_view());
        }
        match self.cache.peek(*key, now) {
            Some(v) => Some(vec_copy(v)),
            None => None,
        }
    }

    /// Add a key-value pair at reading `now`; the central operation.
    ///
    /// The key's collection (fresh, or the live one) takes `value` under
    /// the policy and is stored under the cache's insertion discipline;
    /// the result is a snapshot of that collection exactly when it has
    /// reached the quorum threshold.
    pub fn add_at(&mut self, key: i32, value: u32, now: u64) -> (r: Option<Vec<u32>>)
        requires
            old(self).wf(),
        ensures
            final(self).wf(),
            add_transition(*old(self), *final(self), key, value, r, now),
    {
        let ghost s0 = self.cache.entries@;
        let ghost b = self.cache.bound;
        let ghost pol = self.policy;
        let ghost m0 = self.model();
        proof {
            lemma_map_live(s0, vec_view(), b, now);
            lemma_live_distinct(s0, b, now);
            lemma_map_keys(live_seq(s0, b, now), vec_view());
            lemma_entries_ok_live(s0, pol, b, now);
        }
        let dedup = self.policy == Policy::Dedup;
        let taken = self.cache.remove(key, now);
        let ghost got = taken;
        let mut vals: Vec<u32>;
        match taken {
            Some(tv) => {
                vals = tv;
                let mut have = false;
                if dedup {
                    have = vec_contains(&vals, value);
                }
                if !have {
                    vals.push(value);
                }
            },
            None => {
                vals = Vec::new();
                vals.push(value);
            },
        }
        proof {
            let live0 = live_seq(s0, b, now);
            let livem = live_seq(m0, b, now);
            match got {
                Some(tv) => {
                    let i = seq_key_index(live0, key);
                    assert(livem[i] == map_payloads(live0, vec_view())[i]);
                    assert(seq_key_index(livem, key) == i);
                    assert(livem[i].payload == tv@);
                    assert(payload_ok(live0[i], pol));
                    assert(vals@ == stepped_values(pol, tv@, value));
                },
                None => {
                    assert(!seq_has_key(livem, key));
                    assert(vals@ =~= seq![value]);
                },
            }
            assert(vals@ == gathered_values(m0, b, pol, key, value, now));
            assert(vals@.len() >= 1);
            if pol == Policy::Dedup {
                assert(vals@.no_duplicates()) by {
                    match got {
                        Some(tv) => {
                            if !tv@.contains(value) {
                                assert(forall|j: int| 0 <= j < tv@.len() ==> tv@[j] != value);
                            }
                        },
                        None => {},
                    }
                }
            }
        }
        let snapshot = vec_copy(&vals);
        let ghost vg = vals;
        self.cache.insert(key, vals, now);
        proof {
            lemma_remove_then_insert(s0, b, key, vg, now);
            lemma_map_inserted(s0, vec_view(), b, key, vg, now);
            lemma_entries_ok_inserted(s0, pol, b, key, vg, now);
            assert(self.model() == step_add(m0, b, pol, key, value, now));
        }
        if snapshot.len() >= self.quorum {
            Some(snapshot)
        } else {
            None
        }
    }

    /// Remove `key` and its whole collection, at reading `now`. The key
    /// is gone from the model outright, so no later reading shows it
    /// until a new contribution arrives.
    pub fn delete_at(&mut self, key: &i32, now: u64)
        requires
            old(self).wf(),
        ensures
            final(self).wf(),
            final(self).quorum == old(self).quorum,
            final(self).policy == old(self).policy,
            final(self).cache.bound == old(self).cache.bound,
            final(self).model() == removed_seq(old(self).model(), old(self).cache.bound, *key, now),
            !seq_has_key(final(self).model(), *key),
    {
        let ghost s0 = self.cache.entries@;
        let ghost b = self.cache.bound;
        proof {
            lemma_map_removed(s0, vec_view(), b, *key, now);
            lemma_entries_ok_removed(s0, self.policy, b, *key, now);
        }
        let _ = self.cache.remove(*key, now);
        proof {
            lemma_live_distinct(s0, b, now);
            let live0 = live_seq(s0, b, now);
            if seq_has_key(live0, *key) {
                let i = seq_key_index(live0, *key);
                assert(0 <= i < live0.len() && live0[i].key == *key);
                lemma_remove_distinct(live0, i);
            }
            lemma_map_keys(self.cache.entries@, vec_view());
        }
    }

    /// The number of keys currently held, at reading `now`; entries dead
    /// at `now` are dropped first.
    pub fn cache_size_at(&mut self, now: u64) -> (r: usize)
        requires
            old(self).wf(),
        ensures
            final(self).wf(),
            final(self).quorum == old(self).quorum,
            final(self).policy == old(self).policy,
            final(self).cache.bound == old(self).cache.bound,
            final(self).model() == live_seq(old(self).model(), old(self).cache.bound, now),
            r == live_seq(old(self).model(), old(self).cache.bound, now).len(),
    {
        let ghost s0 = self.cache.entries@;
        let ghost b = self.cache.bound;
        proof {
            lemma_map_live(s0, vec_view(), b, now);
            lemma_entries_ok_live(s0, self.policy, b, now);
            lemma_map_keys(live_seq(s0, b, now), vec_view());
        }
        self.cache.len_at(now)
    }

    /// Set a new value for the quorum threshold.
    ///
    /// This has immediate effect, even for existing key-value entries:
    /// nothing but the threshold changes.
    pub fn set_quorum(&mut self, new_size: usize)
        ensures
            final(self).quorum == new_size,
            final(self).policy == old(self).policy,
            final(self).cache == old(self).cache,
    {
        self.quorum = new_size;
    }

    /// The current value of the quorum threshold.
    pub fn quorum(&self) -> (r: usize)
        ensures
            r == self.quorum,
    {
        self.quorum
    }

    /// Whether `key` exists in the accumulator, against the clock read
    /// now. Under a capacity bound the reading cannot matter.
    pub fn contains_key(&self, key: &i32) -> (r: bool)
        requires
            self.wf(),
        ensures
            exists|now: u64| r == (lookup(self.model(), self.cache.bound, *key, now) is Some),
            (self.cache.bound is Capacity) ==> r == (lookup(
                self.model(),
                self.cache.bound,
                *key,
                0,
            ) is Some),
    {
        let now = clock::now_ms();
        let r = self.contains_key_at(key, now);
        proof {
            assert(r == (lookup(self.model(), self.cache.bound, *key, now) is Some));
            match self.cache.bound {
                Bound::Capacity(cap) => {
                    lemma_capacity_step_time_free(self.model(), cap, self.policy, *key, 0, now, 0);
                },
                Bound::Expiry(_) => {},
            }
        }
        r
    }

    /// Whether `key` exists and has accumulated `quorum` or more values,
    /// against the clock read now.
    pub fn is_quorum_reached(&self, key: &i32) -> (r: bool)
        requires
            self.wf(),
        ensures
            exists|now: u64|
                r == quorum_met(self.model(), self.cache.bound, self.quorum, *key, now),
            (self.cache.bound is Capacity) ==> r == quorum_met(
                self.model(),
                self.cache.bound,
                self.quorum,
                *key,
                0,
            ),
    {
        let now = clock::now_ms();
        let r = self.is_quorum_reached_at(key, now);
        proof {
            assert(r == quorum_met(self.model(), self.cache.bound, self.quorum, *key, now));
            match self.cache.bound {
                Bound::Capacity(cap) => {
                    lemma_capacity_step_time_free(self.model(), cap, self.policy, *key, 0, now, 0);
                },
                Bound::Expiry(_) => {},
            }
        }
        r
    }

    /// Adds a key-value pair, against the clock read now.
    ///
    /// Returns a snapshot of the values accumulated under `key` if
    /// `quorum` or more have been accumulated, otherwise `None`. Under a
    /// capacity bound the transition is exactly `add_transition` at
    /// reading zero: the clock cannot matter.
    pub fn add(&mut self, key: i32, value: u32) -> (r: Option<Vec<u32>>)
        requires
            old(self).wf(),
        ensures
            final(self).wf(),
            exists|now: u64| add_transition(*old(self), *final(self), key, value, r, now),
            (old(self).cache.bound is Capacity) ==> add_transition(
                *old(self),
                *final(self),
                key,
                value,
                r,
                0,
            ),
    {
        let ghost pre = *old(self);
        let now = clock::now_ms();
        let r = self.add_at(key, value, now);
        proof {
            assert(add_transition(pre, *self, key, value, r, now));
            match pre.cache.bound {
                Bound::Capacity(cap) => {
                    lemma_capacity_step_time_free(
                        pre.model(),
                        cap,
                        pre.policy,
                        key,
                        value,
                        now,
                        0,
                    );
                },
                Bound::Expiry(_) => {},
            }
        }
        r
    }

    /// A snapshot of the values accumulated under `key`, or `None` if
    /// `key` holds nothing, against the clock read now.
    pub fn get(&self, key: &i32) -> (r: Option<Vec<u32>>)
        requires
            self.wf(),
        ensures
            exists|now: u64| opt_view(r) == lookup(self.model(), self.cache.bound, *key, now),
            (self.cache.bound is Capacity) ==> opt_view(r) == lookup(
                self.model(),
                self.cache.bound,
                *key,
                0,
            ),
    {
        let now = clock::now_ms();
        let r = self.get_at(key, now);
        proof {
            assert(opt_view(r) == lookup(self.model(), self.cache.bound, *key, now));
            match self.cache.bound {
                Bound::Capacity(cap) => {
                    lemma_capacity_step_time_free(self.model(), cap, self.policy, *key, 0, now, 0);
                },
                Bound::Expiry(_) => {},
            }
        }
        r
    }

    /// Removes `key` and all corresponding accumulated values, against
    /// the clock read now. Afterwards the key is absent from the model,
    /// whatever any later reading says.
    pub fn delete(&mut self, key: &i32)
        requires
            old(self).wf(),
        ensures
            final(self).wf(),
            final(self).quorum == old(self).quorum,
            final(self).policy == old(self).policy,
            final(self).cache.bound == old(self).cache.bound,
            exists|now: u64|
                final(self).model() == removed_seq(
                    old(self).model(),
                    old(self).cache.bound,
                    *key,
                    now,
                ),
            !seq_has_key(final(self).model(), *key),
    {
        let ghost pre = *old(self);
        let now = clock::now_ms();
        self.delete_at(key, now);
        proof {
            assert(final(self).model() == removed_seq(pre.model(), pre.cache.bound, *key, now));
        }
    }

    /// Returns the number of keys currently held, against the clock
    /// read now.
    pub fn cache_size(&mut self) -> (r: usize)
        requires
            old(self).wf(),
        ensures
            final(self).wf(),
            final(self).quorum == old(self).quorum,
            final(self).policy == old(self).policy,
            final(self).cache.bound == old(self).cache.bound,
            exists|now: u64|
                final(self).model() == live_seq(old(self).model(), old(self).cache.bound, now)
                    && r == live_seq(old(self).model(), old(self).cache.bound, now).len(),
            (old(self).cache.bound is Capacity) ==> final(self).model() == old(self).model() && r
                == old(self).model().len(),
    {
        let ghost pre = *old(self);
        let now = clock::now_ms();
        let r = self.cache_size_at(now);
        proof {
            assert(final(self).model() == live_seq(pre.model(), pre.cache.bound, now) && r
                == live_seq(pre.model(), pre.cache.bound, now).len());
            match pre.cache.bound {
                Bound::Capacity(cap) => {
                    lemma_capacity_time_free(pre.model(), cap, now);
                },
                Bound::Expiry(_) => {},
            }
        }
        r
    }
}

} // verus!
