//! A bounded ordered cache: a mapping from key to payload, held in
//! least-recently-touched-first order, bounded either by a maximum entry
//! count or by a maximum age per entry.
//!
//! The cache has no knowledge of quorum semantics; it only enforces the
//! bound and the recency order. Time enters every operation as an explicit
//! millisecond reading, so the whole eviction discipline is verified for
//! every possible reading of the clock.

use vstd::prelude::*;

verus! {

/// The single bound a cache enforces for its lifetime: either a maximum
/// number of entries, or a maximum age (in milliseconds) per entry.
#[derive(Clone, Copy, PartialEq, Eq, Structural, Debug)]
pub enum Bound {
    /// At most this many entries are held; inserting a fresh key beyond the
    /// limit evicts the least-recently-touched entry first.
    Capacity(usize),
    /// Entries older than this many milliseconds (since their last touch)
    /// are purged before any mutating operation and ignored by reads.
    Expiry(u64),
}

impl Bound {
    /// Whether an entry stamped at `stamp` is still live at time `now`.
    /// A capacity bound never expires entries; an expiry bound keeps an
    /// entry exactly while its age is at most the configured maximum.
    pub open spec fn alive(self, stamp: u64, now: u64) -> bool {
        match self {
            Bound::Capacity(_) => true,
            Bound::Expiry(max_age) => stamp + max_age >= now,
        }
    }

    /// The stamp written on an entry touched at time `now`. Under a
    /// capacity bound stamps carry no information and stay zero, which
    /// keeps capacity-bounded behaviour independent of the clock.
    pub open spec fn fresh_stamp(self, now: u64) -> u64 {
        match self {
            Bound::Capacity(_) => 0,
            Bound::Expiry(_) => now,
        }
    }

    /// Executable liveness test, equivalent to `alive`.
    pub fn check_alive(&self, stamp: u64, now: u64) -> (b: bool)
        ensures
            b == self.alive(stamp, now),
    {
        match self {
            Bound::Capacity(_) => true,
            Bound::Expiry(max_age) => now <= *max_age || stamp >= now - *max_age,
        }
    }

    /// Executable counterpart of `fresh_stamp`.
    pub fn make_stamp(&self, now: u64) -> (s: u64)
        ensures
            s == self.fresh_stamp(now),
    {
        match self {
            Bound::Capacity(_) => 0,
            Bound::Expiry(_) => now,
        }
    }
}

/// One cache slot: a key, its payload, and the time of its last touch.
pub struct CacheEntry<V> {
    pub key: i32,
    pub payload: V,
    pub stamp: u64,
}

/// No two entries of `s` share a key.
pub open spec fn distinct_keys<V>(s: Seq<CacheEntry<V>>) -> bool {
    forall|i: int, j: int| 0 <= i < j < s.len() ==> s[i].key != s[j].key
}

/// Whether some entry of `s` has key `k`.
pub open spec fn seq_has_key<V>(s: Seq<CacheEntry<V>>, k: i32) -> bool {
    exists|i: int| 0 <= i < s.len() && s[i].key == k
}

/// The index of the entry of `s` with key `k` (unique when keys are
/// distinct and such an entry exists).
pub open spec fn seq_key_index<V>(s: Seq<CacheEntry<V>>, k: i32) -> int {
    choose|i: int| 0 <= i < s.len() && s[i].key == k
}

/// The liveness test at time `now` under bound `b`, as a predicate value.
pub open spec fn alive_pred<V>(b: Bound, now: u64) -> spec_fn(CacheEntry<V>) -> bool {
    |e: CacheEntry<V>| b.alive(e.stamp, now)
}

/// The entries of `s` still live at time `now`, in unchanged order.
pub open spec fn live_seq<V>(s: Seq<CacheEntry<V>>, b: Bound, now: u64) -> Seq<CacheEntry<V>> {
    s.filter(alive_pred(b, now))
}

/// The state after removing key `k` at time `now`: dead entries are purged,
/// and the live entry under `k`, if any, is dropped.
pub open spec fn removed_seq<V>(s: Seq<CacheEntry<V>>, b: Bound, k: i32, now: u64) -> Seq<
    CacheEntry<V>,
> {
    let live = live_seq(s, b, now);
    if seq_has_key(live, k) {
        live.remove(seq_key_index(live, k))
    } else {
        live
    }
}

/// The state after inserting payload `v` under key `k` at time `now`:
/// dead entries are purged; an existing entry under `k` is replaced and
/// promoted to most recent; a fresh key beyond a full capacity bound
/// evicts the least-recently-touched entry first; a capacity of zero
/// leaves no room at all.
pub open spec fn inserted_seq<V>(s: Seq<CacheEntry<V>>, b: Bound, k: i32, v: V, now: u64) -> Seq<
    CacheEntry<V>,
> {
    let live = live_seq(s, b, now);
    let e = CacheEntry { key: k, payload: v, stamp: b.fresh_stamp(now) };
    if seq_has_key(live, k) {
        live.remove(seq_key_index(live, k)).push(e)
    } else {
        match b {
            Bound::Capacity(cap) => if cap == 0 {
                live
            } else if live.len() >= cap {
                live.subrange(1, live.len() as int).push(e)
            } else {
                live.push(e)
            },
            Bound::Expiry(_) => live.push(e),
        }
    }
}

/// With distinct keys, any position holding key `k` is the position
/// `seq_key_index` denotes.
pub proof fn lemma_key_index_unique<V>(s: Seq<CacheEntry<V>>, k: i32, i: int)
    requires
        distinct_keys(s),
        0 <= i < s.len(),
        s[i].key == k,
    ensures
        seq_has_key(s, k),
        seq_key_index(s, k) == i,
{
    assert(seq_has_key(s, k));
    let j = seq_key_index(s, k);
    assert(0 <= j < s.len() && s[j].key == k);
    if i < j {
        assert(s[i].key != s[j].key);
    } else if j < i {
        assert(s[j].key != s[i].key);
    }
}

/// Unfolding step of `live_seq` over the last element.
pub proof fn lemma_live_unfold<V>(s: Seq<CacheEntry<V>>, b: Bound, now: u64)
    requires
        s.len() > 0,
    ensures
        live_seq(s, b, now) == if b.alive(s.last().stamp, now) {
            live_seq(s.drop_last(), b, now).push(s.last())
        } else {
            live_seq(s.drop_last(), b, now)
        },
{
    reveal(Seq::filter);
}

/// An empty sequence stays empty under the liveness filter.
pub proof fn lemma_live_empty<V>(b: Bound, now: u64)
    ensures
        live_seq(Seq::<CacheEntry<V>>::empty(), b, now) == Seq::<CacheEntry<V>>::empty(),
{
    reveal(Seq::filter);
    assert(Seq::<CacheEntry<V>>::empty().len() == 0);
}

/// Every entry of `live_seq(s, b, now)` is live at `now` and occurs in `s`;
/// in particular every key of the live view is a key of `s`, and the live
/// view is no longer than `s`.
pub proof fn lemma_live_members<V>(s: Seq<CacheEntry<V>>, b: Bound, now: u64)
    ensures
        live_seq(s, b, now).len() <= s.len(),
        forall|i: int|
            0 <= i < live_seq(s, b, now).len() ==> b.alive(
                (#[trigger] live_seq(s, b, now)[i]).stamp,
                now,
            ),
        forall|i: int| 0 <= i < live_seq(s, b, now).len() ==> s.contains(live_seq(s, b, now)[i]),
        forall|k: i32| #[trigger] seq_has_key(live_seq(s, b, now), k) ==> seq_has_key(s, k),
    decreases s.len(),
{
    if s.len() == 0 {
        lemma_live_empty::<V>(b, now);
    } else {
        let d = s.drop_last();
        lemma_live_members(d, b, now);
        lemma_live_unfold(s, b, now);
        let live = live_seq(s, b, now);
        let dl = live_seq(d, b, now);
        assert forall|i: int| 0 <= i < live.len() implies s.contains(live[i]) by {
            if i < dl.len() {
                assert(d.contains(dl[i]));
                let j = choose|j: int| 0 <= j < d.len() && d[j] == dl[i];
                assert(s[j] == dl[i]);
            } else {
                assert(live[i] == s.last());
                assert(s[s.len() - 1] == s.last());
            }
        }
        assert forall|k: i32| #[trigger] seq_has_key(live, k) implies seq_has_key(s, k) by {
            let i = choose|i: int| 0 <= i < live.len() && live[i].key == k;
            assert(s.contains(live[i]));
            let j = choose|j: int| 0 <= j < s.len() && s[j] == live[i];
            assert(s[j].key == k);
        }
    }
}

/// The liveness filter preserves distinctness of keys.
pub proof fn lemma_live_distinct<V>(s: Seq<CacheEntry<V>>, b: Bound, now: u64)
    requires
        distinct_keys(s),
    ensures
        distinct_keys(live_seq(s, b, now)),
    decreases s.len(),
{
    if s.len() == 0 {
        lemma_live_empty::<V>(b, now);
    } else {
        let d = s.drop_last();
        assert(distinct_keys(d)) by {
            assert(forall|i: int| 0 <= i < d.len() ==> d[i] == s[i]);
        }
        lemma_live_distinct(d, b, now);
        lemma_live_unfold(s, b, now);
        if b.alive(s.last().stamp, now) {
            let dl = live_seq(d, b, now);
            let live = dl.push(s.last());
            assert(!seq_has_key(dl, s.last().key)) by {
                if seq_has_key(dl, s.last().key) {
                    lemma_live_members(d, b, now);
                    let i = choose|i: int| 0 <= i < dl.len() && dl[i].key == s.last().key;
                    assert(d.contains(dl[i]));
                    let j = choose|j: int| 0 <= j < d.len() && d[j] == dl[i];
                    assert(s[j].key == s.last().key);
                    assert(s[j].key != s[s.len() - 1].key);
                }
            }
            assert forall|i: int, j: int| 0 <= i < j < live.len() implies live[i].key
                != live[j].key by {
                if j < live.len() - 1 {
                    assert(live[i] == dl[i] && live[j] == dl[j]);
                } else {
                    assert(live[j] == s.last());
                    assert(live[i] == dl[i]);
                    assert(!(dl[i].key == s.last().key)) by {
                        if dl[i].key == s.last().key {
                            assert(seq_has_key(dl, s.last().key));
                        }
                    }
                }
            }
        }
    }
}

/// Looking a key up in the live view: the key is present there exactly
/// when `s` holds it in a live entry, and then both views hold the very
/// same entry for it.
pub proof fn lemma_live_key_lookup<V>(s: Seq<CacheEntry<V>>, b: Bound, now: u64, k: i32)
    requires
        distinct_keys(s),
    ensures
        seq_has_key(live_seq(s, b, now), k) <==> (seq_has_key(s, k) && b.alive(
            s[seq_key_index(s, k)].stamp,
            now,
        )),
        seq_has_key(live_seq(s, b, now), k) ==> {
            let live = live_seq(s, b, now);
            &&& 0 <= seq_key_index(live, k) < live.len()
            &&& live[seq_key_index(live, k)] == s[seq_key_index(s, k)]
        },
    decreases s.len(),
{
    lemma_live_distinct(s, b, now);
    let live = live_seq(s, b, now);
    if s.len() == 0 {
        lemma_live_empty::<V>(b, now);
    } else {
        let d = s.drop_last();
        let l = s.last();
        assert(distinct_keys(d)) by {
            assert(forall|i: int| 0 <= i < d.len() ==> d[i] == s[i]);
        }
        lemma_live_key_lookup(d, b, now, k);
        lemma_live_unfold(s, b, now);
        lemma_live_distinct(d, b, now);
        let dl = live_seq(d, b, now);
        if l.key == k {
            lemma_key_index_unique(s, k, s.len() - 1);
            assert(!seq_has_key(d, k)) by {
                if seq_has_key(d, k) {
                    let i = choose|i: int| 0 <= i < d.len() && d[i].key == k;
                    assert(s[i].key == s[s.len() - 1].key);
                }
            }
            if b.alive(l.stamp, now) {
                lemma_key_index_unique(live, k, live.len() - 1);
            } else {
                assert(!seq_has_key(live, k));
            }
        } else {
            if seq_has_key(s, k) {
                let i = seq_key_index(s, k);
                assert(0 <= i < s.len() && s[i].key == k);
                assert(i != s.len() - 1);
                assert(d[i].key == k);
                lemma_key_index_unique(d, k, i);
            }
            if seq_has_key(d, k) {
                let i = seq_key_index(d, k);
                assert(s[i].key == k);
                lemma_key_index_unique(s, k, i);
            }
            if b.alive(l.stamp, now) {
                assert(live == dl.push(l));
                if seq_has_key(dl, k) {
                    let i = seq_key_index(dl, k);
                    assert(live[i] == dl[i]);
                    lemma_key_index_unique(live, k, i);
                }
                if seq_has_key(live, k) {
                    let i = seq_key_index(live, k);
                    assert(live[i].key == k);
                    assert(i != live.len() - 1);
                    assert(dl[i].key == k);
                    lemma_key_index_unique(dl, k, i);
                }
            }
        }
    }
}

/// When every entry of `s` is live at `now`, the liveness filter is the
/// identity (so purging twice at one instant changes nothing, and a
/// capacity bound never purges).
pub proof fn lemma_live_identity<V>(s: Seq<CacheEntry<V>>, b: Bound, now: u64)
    requires
        forall|i: int| 0 <= i < s.len() ==> b.alive((#[trigger] s[i]).stamp, now),
    ensures
        live_seq(s, b, now) == s,
    decreases s.len(),
{
    if s.len() == 0 {
        lemma_live_empty::<V>(b, now);
    } else {
        let d = s.drop_last();
        assert(forall|i: int| 0 <= i < d.len() ==> b.alive((#[trigger] d[i]).stamp, now)) by {
            assert(forall|i: int| 0 <= i < d.len() ==> d[i] == s[i]);
        }
        lemma_live_identity(d, b, now);
        lemma_live_unfold(s, b, now);
        assert(b.alive(s.last().stamp, now));
        assert(live_seq(s, b, now) =~= s);
    }
}

/// Dropping one position keeps keys distinct, loses exactly that
/// position's key, and keeps every other key.
pub proof fn lemma_remove_distinct<V>(s: Seq<CacheEntry<V>>, i: int)
    requires
        distinct_keys(s),
        0 <= i < s.len(),
    ensures
        distinct_keys(s.remove(i)),
        !seq_has_key(s.remove(i), s[i].key),
        forall|k: i32| k != s[i].key ==> (#[trigger] seq_has_key(s.remove(i), k) <==> seq_has_key(
            s,
            k,
        )),
        forall|j: int| 0 <= j < i ==> #[trigger] s.remove(i)[j] == s[j],
        forall|j: int| i <= j < s.len() - 1 ==> #[trigger] s.remove(i)[j] == s[j + 1],
{
    s.remove_ensures(i);
    let t = s.remove(i);
    assert forall|k: i32| k != s[i].key && seq_has_key(s, k) implies #[trigger] seq_has_key(
        t,
        k,
    ) by {
        let j = seq_key_index(s, k);
        assert(0 <= j < s.len() && s[j].key == k);
        if j < i {
            assert(t[j] == s[j]);
        } else {
            assert(j > i);
            assert(t[j - 1] == s[j]);
        }
    }
    assert forall|k: i32| seq_has_key(t, k) implies k == s[i].key || seq_has_key(s, k) by {
        let j = seq_key_index(t, k);
        assert(0 <= j < t.len() && t[j].key == k);
        if j < i {
            assert(t[j] == s[j]);
        } else {
            assert(t[j] == s[j + 1]);
        }
    }
    assert(!seq_has_key(t, s[i].key)) by {
        if seq_has_key(t, s[i].key) {
            let j = seq_key_index(t, s[i].key);
            assert(0 <= j < t.len() && t[j].key == s[i].key);
            if j < i {
                assert(s[j].key == s[i].key);
            } else {
                assert(s[j + 1].key == s[i].key);
            }
        }
    }
}

/// Rewriting every payload with `f`, keeping keys, stamps and order.
pub open spec fn payload_map<A, B>(f: spec_fn(A) -> B) -> spec_fn(CacheEntry<A>) -> CacheEntry<B> {
    |e: CacheEntry<A>| CacheEntry { key: e.key, payload: f(e.payload), stamp: e.stamp }
}

/// `s` with every payload rewritten by `f`.
pub open spec fn map_payloads<A, B>(s: Seq<CacheEntry<A>>, f: spec_fn(A) -> B) -> Seq<
    CacheEntry<B>,
> {
    s.map_values(payload_map(f))
}

/// Rewriting payloads touches neither keys nor stamps: presence, lookup
/// positions and distinctness carry over unchanged.
pub proof fn lemma_map_keys<A, B>(s: Seq<CacheEntry<A>>, f: spec_fn(A) -> B)
    ensures
        map_payloads(s, f).len() == s.len(),
        forall|i: int|
            0 <= i < s.len() ==> (#[trigger] map_payloads(s, f)[i]) == (CacheEntry {
                key: s[i].key,
                payload: f(s[i].payload),
                stamp: s[i].stamp,
            }),
        distinct_keys(s) ==> distinct_keys(map_payloads(s, f)),
        forall|k: i32| #[trigger] seq_has_key(map_payloads(s, f), k) <==> seq_has_key(s, k),
        distinct_keys(s) ==> (forall|k: i32|
            seq_has_key(s, k) ==> #[trigger] seq_key_index(map_payloads(s, f), k) == seq_key_index(
                s,
                k,
            )),
{
    let ms = map_payloads(s, f);
    assert forall|k: i32| #[trigger] seq_has_key(ms, k) implies seq_has_key(s, k) by {
        let i = choose|i: int| 0 <= i < ms.len() && ms[i].key == k;
        assert(s[i].key == k);
    }
    assert forall|k: i32| seq_has_key(s, k) implies #[trigger] seq_has_key(ms, k) by {
        let i = choose|i: int| 0 <= i < s.len() && s[i].key == k;
        assert(ms[i].key == k);
    }
    if distinct_keys(s) {
        assert forall|k: i32| seq_has_key(s, k) implies #[trigger] seq_key_index(ms, k)
            == seq_key_index(s, k) by {
            let i = seq_key_index(s, k);
            assert(0 <= i < s.len() && s[i].key == k);
            assert(ms[i].key == k);
            assert(distinct_keys(ms));
            lemma_key_index_unique(ms, k, i);
        }
    }
}

/// Rewriting payloads commutes with the liveness filter.
pub proof fn lemma_map_live<A, B>(s: Seq<CacheEntry<A>>, f: spec_fn(A) -> B, b: Bound, now: u64)
    ensures
        live_seq(map_payloads(s, f), b, now) == map_payloads(live_seq(s, b, now), f),
    decreases s.len(),
{
    let ms = map_payloads(s, f);
    lemma_map_keys(s, f);
    if s.len() == 0 {
        assert(ms =~= Seq::<CacheEntry<B>>::empty());
        lemma_live_empty::<A>(b, now);
        lemma_live_empty::<B>(b, now);
        assert(map_payloads(live_seq(s, b, now), f) =~= Seq::<CacheEntry<B>>::empty());
    } else {
        let d = s.drop_last();
        lemma_map_live(d, f, b, now);
        lemma_live_unfold(s, b, now);
        lemma_live_unfold(ms, b, now);
        lemma_map_keys(d, f);
        lemma_map_keys(live_seq(s, b, now), f);
        lemma_map_keys(live_seq(d, b, now), f);
        assert(ms.drop_last() =~= map_payloads(d, f));
        assert(ms.last() == payload_map(f)(s.last()));
        if b.alive(s.last().stamp, now) {
            assert(live_seq(ms, b, now) == map_payloads(live_seq(d, b, now), f).push(ms.last()));
            assert(map_payloads(live_seq(s, b, now), f) =~= map_payloads(
                live_seq(d, b, now),
                f,
            ).push(ms.last()));
        } else {
            assert(map_payloads(live_seq(s, b, now), f) =~= map_payloads(live_seq(d, b, now), f));
        }
    }
}

/// Rewriting payloads commutes with removal of a key.
pub proof fn lemma_map_removed<A, B>(
    s: Seq<CacheEntry<A>>,
    f: spec_fn(A) -> B,
    b: Bound,
    k: i32,
    now: u64,
)
    requires
        distinct_keys(s),
    ensures
        map_payloads(removed_seq(s, b, k, now), f) == removed_seq(map_payloads(s, f), b, k, now),
{
    lemma_map_live(s, f, b, now);
    lemma_live_distinct(s, b, now);
    let live = live_seq(s, b, now);
    let mlive = map_payloads(live, f);
    lemma_map_keys(live, f);
    if seq_has_key(live, k) {
        let i = seq_key_index(live, k);
        assert(0 <= i < live.len() && live[i].key == k);
        live.remove_ensures(i);
        mlive.remove_ensures(i);
        lemma_map_keys(live.remove(i), f);
        assert(map_payloads(live.remove(i), f) =~= mlive.remove(i));
    }
}

/// Rewriting payloads commutes with insertion.
pub proof fn lemma_map_inserted<A, B>(
    s: Seq<CacheEntry<A>>,
    f: spec_fn(A) -> B,
    b: Bound,
    k: i32,
    v: A,
    now: u64,
)
    requires
        distinct_keys(s),
    ensures
        map_payloads(inserted_seq(s, b, k, v, now), f) == inserted_seq(
            map_payloads(s, f),
            b,
            k,
            f(v),
            now,
        ),
{
    lemma_map_live(s, f, b, now);
    lemma_live_distinct(s, b, now);
    let live = live_seq(s, b, now);
    let mlive = map_payloads(live, f);
    lemma_map_keys(live, f);
    let e = CacheEntry { key: k, payload: v, stamp: b.fresh_stamp(now) };
    let me = CacheEntry { key: k, payload: f(v), stamp: b.fresh_stamp(now) };
    if seq_has_key(live, k) {
        let i = seq_key_index(live, k);
        assert(0 <= i < live.len() && live[i].key == k);
        live.remove_ensures(i);
        mlive.remove_ensures(i);
        lemma_map_keys(live.remove(i), f);
        assert(map_payloads(live.remove(i).push(e), f) =~= mlive.remove(i).push(me));
    } else {
        match b {
            Bound::Capacity(cap) => {
                if cap == 0 {
                } else if live.len() >= cap {
                    lemma_map_keys(live.subrange(1, live.len() as int), f);
                    assert(map_payloads(live.subrange(1, live.len() as int).push(e), f)
                        =~= mlive.subrange(1, mlive.len() as int).push(me));
                } else {
                    assert(map_payloads(live.push(e), f) =~= mlive.push(me));
                }
            },
            Bound::Expiry(_) => {
                assert(map_payloads(live.push(e), f) =~= mlive.push(me));
            },
        }
    }
}

/// Removing a key at `now` and then inserting under it at the same `now`
/// is one insertion: the two-step read-modify-write a caller performs
/// meets the one-step insertion specification.
pub proof fn lemma_remove_then_insert<V>(s: Seq<CacheEntry<V>>, b: Bound, k: i32, v: V, now: u64)
    requires
        distinct_keys(s),
        b matches Bound::Capacity(cap) ==> s.len() <= cap,
    ensures
        inserted_seq(removed_seq(s, b, k, now), b, k, v, now) == inserted_seq(s, b, k, v, now),
{
    let live = live_seq(s, b, now);
    lemma_live_distinct(s, b, now);
    lemma_live_members(s, b, now);
    let s1 = removed_seq(s, b, k, now);
    assert(live_seq(s1, b, now) == s1) by {
        if seq_has_key(live, k) {
            let i = seq_key_index(live, k);
            assert(0 <= i < live.len() && live[i].key == k);
            live.remove_ensures(i);
            assert(forall|j: int|
                0 <= j < s1.len() ==> b.alive((#[trigger] s1[j]).stamp, now));
        } else {
            assert(forall|j: int|
                0 <= j < s1.len() ==> b.alive((#[trigger] s1[j]).stamp, now));
        }
        lemma_live_identity(s1, b, now);
    }
    if seq_has_key(live, k) {
        let i = seq_key_index(live, k);
        assert(0 <= i < live.len() && live[i].key == k);
        lemma_remove_distinct(live, i);
        assert(!seq_has_key(s1, k));
        match b {
            Bound::Capacity(cap) => {
                assert(cap >= 1);
                assert(s1.len() < cap);
            },
            Bound::Expiry(_) => {},
        }
    } else {
        assert(s1 == live);
    }
}

/// What one insertion yields: distinct keys and the capacity bound are
/// preserved; unless the capacity is zero, the new entry stands at the
/// most-recent end and is the one the key now denotes; with a capacity
/// of zero nothing is stored at all.
pub proof fn lemma_inserted_props<V>(s: Seq<CacheEntry<V>>, b: Bound, k: i32, v: V, now: u64)
    requires
        distinct_keys(s),
        b matches Bound::Capacity(cap) ==> s.len() <= cap,
    ensures
        distinct_keys(inserted_seq(s, b, k, v, now)),
        (b matches Bound::Capacity(cap) ==> inserted_seq(s, b, k, v, now).len() <= cap),
        b != Bound::Capacity(0usize) ==> ({
            let out = inserted_seq(s, b, k, v, now);
            &&& out.len() >= 1
            &&& out.last() == (CacheEntry { key: k, payload: v, stamp: b.fresh_stamp(now) })
            &&& seq_has_key(out, k)
            &&& seq_key_index(out, k) == out.len() - 1
        }),
        b == Bound::Capacity(0usize) ==> inserted_seq(s, b, k, v, now) == live_seq(s, b, now),
{
    let live = live_seq(s, b, now);
    lemma_live_distinct(s, b, now);
    lemma_live_members(s, b, now);
    let e = CacheEntry { key: k, payload: v, stamp: b.fresh_stamp(now) };
    let out = inserted_seq(s, b, k, v, now);
    if seq_has_key(live, k) {
        let i = seq_key_index(live, k);
        assert(0 <= i < live.len() && live[i].key == k);
        lemma_remove_distinct(live, i);
        let t = live.remove(i);
        assert(out == t.push(e));
        assert(distinct_keys(out)) by {
            assert(forall|j: int| 0 <= j < t.len() ==> #[trigger] out[j] == t[j]);
            assert(forall|j: int| 0 <= j < t.len() ==> (#[trigger] t[j]).key != k);
            assert(out[t.len() as int].key == k);
        }
        assert(b != Bound::Capacity(0usize)) by {
            if b == Bound::Capacity(0usize) {
                assert(live.len() <= s.len());
            }
        }
        lemma_key_index_unique(out, k, out.len() - 1);
    } else {
        match b {
            Bound::Capacity(cap) => {
                if cap == 0 {
                } else if live.len() >= cap {
                    lemma_remove_distinct(live, 0);
                    let t = live.subrange(1, live.len() as int);
                    assert(t =~= live.remove(0));
                    assert(out == t.push(e));
                    assert(distinct_keys(out)) by {
                        assert(forall|j: int| 0 <= j < t.len() ==> #[trigger] out[j] == t[j]);
                        assert(forall|j: int| 0 <= j < t.len() ==> (#[trigger] t[j]).key != k);
                        assert(out[t.len() as int].key == k);
                    }
                    lemma_key_index_unique(out, k, out.len() - 1);
                } else {
                    assert(out == live.push(e));
                    assert(distinct_keys(out)) by {
                        assert(forall|j: int| 0 <= j < live.len() ==> #[trigger] out[j] == live[j]);
                        assert(forall|j: int| 0 <= j < live.len() ==> (#[trigger] live[j]).key != k);
                        assert(out[live.len() as int].key == k);
                    }
                    lemma_key_index_unique(out, k, out.len() - 1);
                }
            },
            Bound::Expiry(_) => {
                assert(out == live.push(e));
                assert(distinct_keys(out)) by {
                    assert(forall|j: int| 0 <= j < live.len() ==> #[trigger] out[j] == live[j]);
                    assert(forall|j: int| 0 <= j < live.len() ==> (#[trigger] live[j]).key != k);
                    assert(out[live.len() as int].key == k);
                }
                lemma_key_index_unique(out, k, out.len() - 1);
            },
        }
    }
}

/// A bounded ordered cache. `entries` is ordered least-recently-touched
/// first; the entry pushed or touched last sits at the back.
pub struct Cache<V> {
    pub bound: Bound,
    pub entries: Vec<CacheEntry<V>>,
}

impl<V> Cache<V> {
    /// Well-formedness: keys are distinct; a capacity bound is respected;
    /// under a capacity bound all stamps are zero (the clock is ignored).
    pub open spec fn wf(self) -> bool {
        &&& distinct_keys(self.entries@)
        &&& match self.bound {
            Bound::Capacity(cap) => self.entries@.len() <= cap && (forall|i: int|
                0 <= i < self.entries@.len() ==> (#[trigger] self.entries@[i]).stamp == 0),
            Bound::Expiry(_) => true,
        }
    }

    /// The entries still live at time `now`, in unchanged order.
    pub open spec fn live_entries(self, now: u64) -> Seq<CacheEntry<V>> {
        live_seq(self.entries@, self.bound, now)
    }

    /// A cache bounded by entry count, initially empty.
    pub fn with_capacity(capacity: usize) -> (r: Cache<V>)
        ensures
            r.wf(),
            r.bound == Bound::Capacity(capacity),
            r.entries@.len() == 0,
    {
        Cache { bound: Bound::Capacity(capacity), entries: Vec::new() }
    }

    /// A cache bounded by entry age, initially empty.
    pub fn with_expiry(max_age_ms: u64) -> (r: Cache<V>)
        ensures
            r.wf(),
            r.bound == Bound::Expiry(max_age_ms),
            r.entries@.len() == 0,
    {
        Cache { bound: Bound::Expiry(max_age_ms), entries: Vec::new() }
    }

    /// Drop every entry no longer live at time `now`, keeping the order
    /// of the survivors.
    pub fn purge(&mut self, now: u64)
        requires
            old(self).wf(),
        ensures
            final(self).wf(),
            final(self).bound == old(self).bound,
            final(self).entries@ == old(self).live_entries(now),
    {
        let ghost orig = self.entries@;
        let ghost b = self.bound;
        let mut i: usize = self.entries.len();
        assert(self.entries@ =~= orig.take(i as int) + live_seq(orig.skip(i as int), b, now)) by {
            assert(orig.skip(i as int) =~= Seq::<CacheEntry<V>>::empty());
            lemma_live_empty::<V>(b, now);
            assert(orig.take(i as int) =~= orig);
        }
        while i > 0
            invariant
                i <= orig.len(),
                self.bound == b,
                self.entries@ == orig.take(i as int) + live_seq(orig.skip(i as int), b, now),
            decreases i,
        {
            i = i - 1;
            let ghost pre = self.entries@;
            let stamp = self.entries[i].stamp;
            assert(pre[i as int] == orig[i as int]);
            let keep = self.bound.check_alive(stamp, now);
            if !keep {
                let _ = self.entries.remove(i);
            }
            proof {
                let one = orig.subrange(i as int, i + 1);
                assert(orig.skip(i as int) =~= one + orig.skip(i + 1));
                Seq::filter_distributes_over_add(one, orig.skip(i + 1), alive_pred(b, now));
                assert(live_seq(one, b, now) == if b.alive(orig[i as int].stamp, now) {
                    seq![orig[i as int]]
                } else {
                    Seq::<CacheEntry<V>>::empty()
                }) by {
                    assert(one.len() == 1);
                    assert(one.last() == orig[i as int]);
                    assert(one.drop_last() =~= Seq::<CacheEntry<V>>::empty());
                    lemma_live_unfold(one, b, now);
                    lemma_live_empty::<V>(b, now);
                    assert(Seq::<CacheEntry<V>>::empty().push(orig[i as int]) =~= seq![
                        orig[i as int],
                    ]);
                }
                if b.alive(orig[i as int].stamp, now) {
                    assert(self.entries@ =~= orig.take(i as int) + live_seq(
                        orig.skip(i as int),
                        b,
                        now,
                    )) by {
                        assert(orig.take(i + 1) =~= orig.take(i as int).push(orig[i as int]));
                    }
                } else {
                    assert(self.entries@ =~= pre.remove(i as int));
                    assert(self.entries@ =~= orig.take(i as int) + live_seq(
                        orig.skip(i as int),
                        b,
                        now,
                    )) by {
                        assert(pre.remove(i as int) =~= orig.take(i as int) + live_seq(
                            orig.skip(i + 1),
                            b,
                            now,
                        ));
                    }
                }
            }
        }
        proof {
            assert(orig.skip(0) =~= orig);
            assert(self.entries@ =~= live_seq(orig, b, now));
            lemma_live_distinct(orig, b, now);
            lemma_live_members(orig, b, now);
            match b {
                Bound::Capacity(cap) => {
                    assert forall|i: int|
                        0 <= i < self.entries@.len() implies (#[trigger] self.entries@[i]).stamp
                        == 0 by {
                        assert(orig.contains(self.entries@[i]));
                        let j = choose|j: int| 0 <= j < orig.len() && orig[j] == self.entries@[i];
                        assert(orig[j].stamp == 0);
                    }
                },
                Bound::Expiry(_) => {},
            }
        }
    }

    /// Read the payload under `k` without touching recency or stamps.
    /// Entries no longer live at `now` are invisible.
    pub fn peek(&self, k: i32, now: u64) -> (r: Option<&V>)
        requires
            self.wf(),
        ensures
            (match r {
                Some(v) => seq_has_key(self.live_entries(now), k) && *v == self.live_entries(
                    now,
                )[seq_key_index(self.live_entries(now), k)].payload,
                None => !seq_has_key(self.live_entries(now), k),
            }),
    {
        proof {
            lemma_live_members(self.entries@, self.bound, now);
            lemma_live_key_lookup(self.entries@, self.bound, now, k);
        }
        match find_index(&self.entries, k) {
            Some(i) => {
                proof {
                    lemma_key_index_unique(self.entries@, k, i as int);
                }
                let stamp = self.entries[i].stamp;
                if self.bound.check_alive(stamp, now) {
                    Some(&self.entries[i].payload)
                } else {
                    None
                }
            },
            None => None,
        }
    }

    /// Remove the entry under `k`, after purging entries dead at `now`.
    /// Returns the payload that was live under `k`, if any.
    pub fn remove(&mut self, k: i32, now: u64) -> (r: Option<V>)
        requires
            old(self).wf(),
        ensures
            final(self).wf(),
            final(self).bound == old(self).bound,
            final(self).entries@ == removed_seq(old(self).entries@, old(self).bound, k, now),
            (match r {
                Some(v) => seq_has_key(old(self).live_entries(now), k) && v == old(
                    self,
                ).live_entries(now)[seq_key_index(old(self).live_entries(now), k)].payload,
                None => !seq_has_key(old(self).live_entries(now), k),
            }),
    {
        self.purge(now);
        let ghost live = self.entries@;
        match find_index(&self.entries, k) {
            Some(i) => {
                proof {
                    lemma_key_index_unique(live, k, i as int);
                    lemma_remove_distinct(live, i as int);
                }
                let e = self.entries.remove(i);
                proof {
                    if self.bound is Capacity {
                        assert(forall|j: int|
                            0 <= j < self.entries@.len() ==> (#[trigger] self.entries@[j]).stamp
                                == 0);
                    }
                }
                Some(e.payload)
            },
            None => None,
        }
    }

    /// Insert payload `v` under key `k` at time `now`. Dead entries are
    /// purged first; an existing entry under `k` is replaced and promoted
    /// to most recent; a fresh key beyond a full capacity bound evicts the
    /// least-recently-touched entry; with a capacity of zero nothing is
    /// ever stored.
    pub fn insert(&mut self, k: i32, v: V, now: u64)
        requires
            old(self).wf(),
        ensures
            final(self).wf(),
            final(self).bound == old(self).bound,
            final(self).entries@ == inserted_seq(old(self).entries@, old(self).bound, k, v, now),
    {
        self.purge(now);
        let ghost live = self.entries@;
        let stamp = self.bound.make_stamp(now);
        let fresh = CacheEntry { key: k, payload: v, stamp };
        match find_index(&self.entries, k) {
            Some(i) => {
                proof {
                    lemma_key_index_unique(live, k, i as int);
                    lemma_remove_distinct(live, i as int);
                }
                let _ = self.entries.remove(i);
                self.entries.push(fresh);
                proof {
                    let t = live.remove(i as int);
                    assert(distinct_keys(self.entries@)) by {
                        assert(forall|j: int|
                            0 <= j < t.len() ==> #[trigger] self.entries@[j] == t[j]);
                        assert(self.entries@[t.len() as int].key == k);
                    }
                    if self.bound is Capacity {
                        assert(forall|j: int|
                            0 <= j < self.entries@.len() ==> (#[trigger] self.entries@[j]).stamp
                                == 0);
                    }
                }
            },
            None => {
                match self.bound {
                    Bound::Capacity(cap) => {
                        if cap == 0 {
                            return ;
                        }
                        if self.entries.len() >= cap {
                            proof {
                                lemma_remove_distinct(live, 0);
                            }
                            let _ = self.entries.remove(0);
                            proof {
                                assert(live.remove(0) =~= live.subrange(1, live.len() as int));
                            }
                        }
                        self.entries.push(fresh);
                        proof {
                            let t = self.entries@.drop_last();
                            assert(distinct_keys(self.entries@)) by {
                                assert(forall|j: int|
                                    0 <= j < t.len() ==> #[trigger] self.entries@[j] == t[j]);
                                assert(forall|j: int|
                                    0 <= j < t.len() ==> (#[trigger] t[j]).key != k);
                                assert(self.entries@[t.len() as int].key == k);
                            }
                            assert(forall|j: int|
                                0 <= j < self.entries@.len() ==> (#[trigger] self.entries@[j]).stamp
                                    == 0);
                        }
                    },
                    Bound::Expiry(_) => {
                        self.entries.push(fresh);
                        proof {
                            let t = live;
                            assert(distinct_keys(self.entries@)) by {
                                assert(forall|j: int|
                                    0 <= j < t.len() ==> #[trigger] self.entries@[j] == t[j]);
                                assert(self.entries@[t.len() as int].key == k);
                            }
                        }
                    },
                }
            },
        }
    }

    /// The number of live entries at time `now`; entries dead at `now`
    /// are purged first.
    pub fn len_at(&mut self, now: u64) -> (r: usize)
        requires
            old(self).wf(),
        ensures
            final(self).wf(),
            final(self).bound == old(self).bound,
            final(self).entries@ == old(self).live_entries(now),
            r == old(self).live_entries(now).len(),
    {
        self.purge(now);
        self.entries.len()
    }
}

/// Find the position of key `k`, if it is present at all (live or not).
fn find_index<V>(entries: &Vec<CacheEntry<V>>, k: i32) -> (r: Option<usize>)
    ensures
        (match r {
            Some(i) => i < entries@.len() && entries@[i as int].key == k,
            None => !seq_has_key(entries@, k),
        }),
{
    let mut i: usize = 0;
    while i < entries.len()
        invariant
            i <= entries@.len(),
            forall|j: int| 0 <= j < i ==> (#[trigger] entries@[j]).key != k,
        decreases entries@.len() - i,
    {
        if entries[i].key == k {
            return Some(i);
        }
        i = i + 1;
    }
    None
}

} // verus!
