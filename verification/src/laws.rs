//! The library's laws: properties of whole runs of accumulator steps,
//! proved over the model that the operations' contracts expose.
//!
//! Each law is a public proof function; its doc comment states the law
//! in words, and its statement speaks of the same spec functions the
//! operations' `ensures` clauses use (`step_add`, `gathered_values`,
//! `lookup`, `quorum_met`).

use vstd::prelude::*;

use crate::cache::distinct_keys;
use crate::cache::lemma_inserted_props;
use crate::cache::lemma_live_distinct;
use crate::cache::lemma_live_key_lookup;
use crate::cache::lemma_live_members;
use crate::cache::lemma_remove_distinct;
use crate::cache::live_seq;
use crate::cache::removed_seq;
use crate::cache::seq_has_key;
use crate::cache::seq_key_index;
use crate::cache::Bound;
use crate::cache::CacheEntry;
use crate::quorum::gathered_values;
use crate::quorum::lemma_capacity_time_free;
use crate::quorum::lookup;
use crate::quorum::quorum_met;
use crate::quorum::step_add;
use crate::quorum::Accumulator;
use crate::quorum::Policy;

verus! {

/// The model after a run of contributions of the values `vs`, in order,
/// all to the key `k`, all at reading `now`.
pub open spec fn run_add(
    m: Seq<CacheEntry<Seq<u32>>>,
    b: Bound,
    policy: Policy,
    k: i32,
    vs: Seq<u32>,
    now: u64,
) -> Seq<CacheEntry<Seq<u32>>>
    decreases vs.len(),
{
    if vs.len() == 0 {
        m
    } else {
        step_add(run_add(m, b, policy, k, vs.drop_last(), now), b, policy, k, vs.last(), now)
    }
}

/// The collection the j-th call of such a run assembles (and reports
/// against the threshold), for 1 <= j <= vs.len().
pub open spec fn nth_gathered(
    m: Seq<CacheEntry<Seq<u32>>>,
    b: Bound,
    policy: Policy,
    k: i32,
    vs: Seq<u32>,
    now: u64,
    j: int,
) -> Seq<u32> {
    gathered_values(run_add(m, b, policy, k, vs.take(j - 1), now), b, policy, k, vs[j - 1], now)
}

/// The model after a run of contributions of one value `v` under each of
/// the keys `ks`, in order, all at reading `now`.
pub open spec fn run_add_keys(
    m: Seq<CacheEntry<Seq<u32>>>,
    b: Bound,
    policy: Policy,
    ks: Seq<i32>,
    v: u32,
    now: u64,
) -> Seq<CacheEntry<Seq<u32>>>
    decreases ks.len(),
{
    if ks.len() == 0 {
        m
    } else {
        step_add(run_add_keys(m, b, policy, ks.drop_last(), v, now), b, policy, ks.last(), v, now)
    }
}

/// The keys a model holds, least-recently-touched first.
pub open spec fn model_keys(m: Seq<CacheEntry<Seq<u32>>>) -> Seq<i32> {
    m.map_values(|e: CacheEntry<Seq<u32>>| e.key)
}

/// After `i` contributions to `k` under the KeepAll policy, the key's
/// live collection holds exactly `i` values (helper induction for
/// `lemma_keepall_quorum_run`).
proof fn lemma_keepall_run_state(
    m: Seq<CacheEntry<Seq<u32>>>,
    b: Bound,
    k: i32,
    vs: Seq<u32>,
    now: u64,
    i: int,
)
    requires
        distinct_keys(m),
        b matches Bound::Capacity(cap) ==> m.len() <= cap && cap >= 1,
        !seq_has_key(live_seq(m, b, now), k),
        0 <= i <= vs.len(),
    ensures
        ({
            let st = run_add(m, b, Policy::KeepAll, k, vs.take(i), now);
            &&& distinct_keys(st)
            &&& (b matches Bound::Capacity(cap) ==> st.len() <= cap)
            &&& (i == 0 ==> !seq_has_key(live_seq(st, b, now), k))
            &&& (i >= 1 ==> seq_has_key(live_seq(st, b, now), k) && live_seq(
                st,
                b,
                now,
            )[seq_key_index(live_seq(st, b, now), k)].payload.len() == i)
        }),
    decreases i,
{
    if i == 0 {
        assert(vs.take(0) =~= Seq::<u32>::empty());
        assert(run_add(m, b, Policy::KeepAll, k, vs.take(0), now) == m);
    } else {
        lemma_keepall_run_state(m, b, k, vs, now, i - 1);
        let prev = run_add(m, b, Policy::KeepAll, k, vs.take(i - 1), now);
        let cur = vs.take(i);
        assert(cur.drop_last() =~= vs.take(i - 1));
        assert(cur.last() == vs[i - 1]);
        let st = run_add(m, b, Policy::KeepAll, k, cur, now);
        assert(st == step_add(prev, b, Policy::KeepAll, k, vs[i - 1], now));
        let g = gathered_values(prev, b, Policy::KeepAll, k, vs[i - 1], now);
        assert(g.len() == i) by {
            if i == 1 {
                assert(g =~= seq![vs[0]]);
            }
        }
        lemma_inserted_props(prev, b, k, g, now);
        assert(b != Bound::Capacity(0usize)) by {
            match b {
                Bound::Capacity(cap) => {
                    assert(cap >= 1);
                },
                Bound::Expiry(_) => {},
            }
        }
        assert(st.last() == (CacheEntry { key: k, payload: g, stamp: b.fresh_stamp(now) }));
        assert(b.alive(b.fresh_stamp(now), now)) by {
            match b {
                Bound::Capacity(_) => {},
                Bound::Expiry(d) => {
                    assert(now + d >= now);
                },
            }
        }
        lemma_live_key_lookup(st, b, now, k);
        assert(st[seq_key_index(st, k)].payload.len() == i);
    }
}

/// Law: with quorum `q` and a run of `q` distinct contributions to one
/// fresh key under the KeepAll (multiset) policy, all at one reading, the
/// j-th call assembles exactly `j` values: it reports quorum reached on
/// the q-th call and on no earlier one. A capacity bound must leave room
/// for the key (capacity at least one: a zero capacity stores nothing);
/// an age bound cannot interfere at a single reading.
pub proof fn lemma_keepall_quorum_run(
    m: Seq<CacheEntry<Seq<u32>>>,
    b: Bound,
    q: usize,
    k: i32,
    vs: Seq<u32>,
    now: u64,
)
    requires
        distinct_keys(m),
        b matches Bound::Capacity(cap) ==> m.len() <= cap && cap >= 1,
        !seq_has_key(live_seq(m, b, now), k),
        vs.len() == q,
        vs.no_duplicates(),
    ensures
        forall|j: int|
            1 <= j <= q ==> (#[trigger] nth_gathered(m, b, Policy::KeepAll, k, vs, now, j)).len()
                == j,
        forall|j: int|
            1 <= j <= q ==> ((nth_gathered(m, b, Policy::KeepAll, k, vs, now, j).len() >= q) <==> j
                == q),
{
    assert forall|j: int| 1 <= j <= q implies (#[trigger] nth_gathered(
        m,
        b,
        Policy::KeepAll,
        k,
        vs,
        now,
        j,
    )).len() == j by {
        lemma_keepall_run_state(m, b, k, vs, now, j - 1);
        let prev = run_add(m, b, Policy::KeepAll, k, vs.take(j - 1), now);
        let g = gathered_values(prev, b, Policy::KeepAll, k, vs[j - 1], now);
        if j == 1 {
            assert(g =~= seq![vs[0]]);
        }
    }
}

/// Law: under the dedup policy, contributing a value the key already
/// holds changes nothing: the assembled collection is the one already
/// held, the stored collection keeps its content, and the call reports
/// quorum reached only if it was already reached before the call.
pub proof fn lemma_dedup_duplicate(
    m: Seq<CacheEntry<Seq<u32>>>,
    b: Bound,
    q: usize,
    k: i32,
    v: u32,
    now: u64,
)
    requires
        distinct_keys(m),
        b matches Bound::Capacity(cap) ==> m.len() <= cap,
        seq_has_key(live_seq(m, b, now), k),
        live_seq(m, b, now)[seq_key_index(live_seq(m, b, now), k)].payload.contains(v),
    ensures
        ({
            let vs0 = live_seq(m, b, now)[seq_key_index(live_seq(m, b, now), k)].payload;
            let g = gathered_values(m, b, Policy::Dedup, k, v, now);
            let post = step_add(m, b, Policy::Dedup, k, v, now);
            &&& g == vs0
            &&& lookup(post, b, k, now) == Some(vs0)
            &&& ((g.len() >= q) <==> quorum_met(m, b, q, k, now))
        }),
{
    let live = live_seq(m, b, now);
    let vs0 = live[seq_key_index(live, k)].payload;
    let g = gathered_values(m, b, Policy::Dedup, k, v, now);
    assert(g == vs0);
    lemma_live_members(m, b, now);
    lemma_live_distinct(m, b, now);
    lemma_inserted_props(m, b, k, g, now);
    assert(b != Bound::Capacity(0usize)) by {
        if b == Bound::Capacity(0usize) {
            assert(live.len() <= m.len());
        }
    }
    let post = step_add(m, b, Policy::Dedup, k, v, now);
    assert(post.last() == (CacheEntry { key: k, payload: g, stamp: b.fresh_stamp(now) }));
    assert(b.alive(b.fresh_stamp(now), now)) by {
        match b {
            Bound::Capacity(_) => {},
            Bound::Expiry(d) => {
                assert(now + d >= now);
            },
        }
    }
    lemma_live_key_lookup(post, b, now, k);
}

/// Law: after `key` is removed, it is gone outright: the model no longer
/// holds it, so at every later reading the lookup is empty, the key is
/// reported absent, and no threshold is met — until a new contribution
/// arrives.
pub proof fn lemma_removed_invisible(
    m: Seq<CacheEntry<Seq<u32>>>,
    b: Bound,
    q: usize,
    k: i32,
    now: u64,
    t: u64,
)
    requires
        distinct_keys(m),
    ensures
        !seq_has_key(removed_seq(m, b, k, now), k),
        lookup(removed_seq(m, b, k, now), b, k, t) is None,
        !quorum_met(removed_seq(m, b, k, now), b, q, k, t),
{
    lemma_live_distinct(m, b, now);
    let live = live_seq(m, b, now);
    let out = removed_seq(m, b, k, now);
    if seq_has_key(live, k) {
        let i = seq_key_index(live, k);
        assert(0 <= i < live.len() && live[i].key == k);
        lemma_remove_distinct(live, i);
    }
    assert(!seq_has_key(out, k));
    lemma_live_members(out, b, t);
    assert(!seq_has_key(live_seq(out, b, t), k));
}

/// Law: the quorum threshold acts at evaluation time. When only the
/// threshold changes, the verdict for any key at any reading is the
/// comparison of the unchanged held collection against the new
/// threshold — pre-existing entries need no new contribution.
pub proof fn lemma_set_quorum_immediate(
    pre: Accumulator,
    post: Accumulator,
    new_size: usize,
    k: i32,
    now: u64,
)
    requires
        post.cache == pre.cache,
        post.quorum == new_size,
    ensures
        quorum_met(post.model(), post.cache.bound, post.quorum, k, now) == (match lookup(
            pre.model(),
            pre.cache.bound,
            k,
            now,
        ) {
            Some(vs) => vs.len() >= new_size,
            None => false,
        }),
{
    assert(post.model() == pre.model());
}

/// Law: under an age bound, an entry whose last touch lies further back
/// than the window is invisible at reading `t`, as is a key that holds
/// nothing; and the entry a contribution has just refreshed stays
/// visible, with the assembled collection, at every reading within the
/// window of that touch.
pub proof fn lemma_expiry_window(
    m: Seq<CacheEntry<Seq<u32>>>,
    d: u64,
    policy: Policy,
    k: i32,
    v: u32,
    now: u64,
    t: u64,
)
    requires
        distinct_keys(m),
    ensures
        (seq_has_key(m, k) && m[seq_key_index(m, k)].stamp + d < t) ==> (lookup(
            m,
            Bound::Expiry(d),
            k,
            t,
        ) is None),
        !seq_has_key(m, k) ==> (lookup(m, Bound::Expiry(d), k, t) is None),
        t <= now + d ==> lookup(
            step_add(m, Bound::Expiry(d), policy, k, v, now),
            Bound::Expiry(d),
            k,
            t,
        ) == Some(gathered_values(m, Bound::Expiry(d), policy, k, v, now)),
{
    let b = Bound::Expiry(d);
    lemma_live_key_lookup(m, b, t, k);
    lemma_live_members(m, b, t);
    if !seq_has_key(m, k) {
        assert(!seq_has_key(live_seq(m, b, t), k));
    }
    if t <= now + d {
        let g = gathered_values(m, b, policy, k, v, now);
        lemma_inserted_props(m, b, k, g, now);
        let post = step_add(m, b, policy, k, v, now);
        assert(post.last() == (CacheEntry { key: k, payload: g, stamp: now }));
        assert(b.alive(now, t));
        lemma_live_key_lookup(post, b, t, k);
    }
}

/// After filling an empty capacity-bounded accumulator with `i` distinct
/// fresh keys, exactly those keys are held, in insertion order (helper
/// induction for `lemma_capacity_eviction`).
proof fn lemma_capacity_fill_state(
    cap: usize,
    policy: Policy,
    ks: Seq<i32>,
    v: u32,
    now: u64,
    i: int,
)
    requires
        cap >= 1,
        ks.no_duplicates(),
        0 <= i <= ks.len(),
        i <= cap,
    ensures
        ({
            let st = run_add_keys(
                Seq::<CacheEntry<Seq<u32>>>::empty(),
                Bound::Capacity(cap),
                policy,
                ks.take(i),
                v,
                now,
            );
            &&& st.len() == i
            &&& model_keys(st) == ks.take(i)
            &&& distinct_keys(st)
        }),
    decreases i,
{
    let b = Bound::Capacity(cap);
    if i == 0 {
        assert(ks.take(0) =~= Seq::<i32>::empty());
        let st = run_add_keys(Seq::<CacheEntry<Seq<u32>>>::empty(), b, policy, ks.take(0), v, now);
        assert(st == Seq::<CacheEntry<Seq<u32>>>::empty());
        assert(model_keys(st) =~= ks.take(0));
    } else {
        lemma_capacity_fill_state(cap, policy, ks, v, now, i - 1);
        let prev = run_add_keys(
            Seq::<CacheEntry<Seq<u32>>>::empty(),
            b,
            policy,
            ks.take(i - 1),
            v,
            now,
        );
        let cur = ks.take(i);
        assert(cur.drop_last() =~= ks.take(i - 1));
        assert(cur.last() == ks[i - 1]);
        let st = run_add_keys(Seq::<CacheEntry<Seq<u32>>>::empty(), b, policy, cur, v, now);
        assert(st == step_add(prev, b, policy, ks[i - 1], v, now));
        lemma_capacity_time_free(prev, cap, now);
        assert(!seq_has_key(prev, ks[i - 1])) by {
            if seq_has_key(prev, ks[i - 1]) {
                let j = choose|j: int| 0 <= j < prev.len() && prev[j].key == ks[i - 1];
                assert(model_keys(prev)[j] == ks[i - 1]);
                assert(ks.take(i - 1)[j] == ks[j]);
                assert(ks[j] == ks[i - 1]);
            }
        }
        let g = gathered_values(prev, b, policy, ks[i - 1], v, now);
        assert(st == prev.push(CacheEntry { key: ks[i - 1], payload: g, stamp: 0 })) by {
            assert(b.fresh_stamp(now) == 0);
            assert(prev.len() == i - 1 < cap);
        }
        assert(model_keys(st) =~= ks.take(i));
        assert(distinct_keys(st)) by {
            assert forall|a: int, c: int| 0 <= a < c < st.len() implies st[a].key != st[c].key by {
                if c < st.len() - 1 {
                    assert(st[a] == prev[a] && st[c] == prev[c]);
                } else {
                    assert(st[c].key == ks[i - 1]);
                    assert(st[a] == prev[a]);
                    assert(model_keys(prev)[a] == prev[a].key);
                    assert(prev[a].key == ks[a]);
                    assert(ks[a] != ks[i - 1]);
                }
            }
        }
    }
}

/// Law: filling an empty capacity-bounded accumulator with capacity + 1
/// distinct keys, with no further access to the first, evicts exactly
/// the first key: the survivors are the later keys in insertion order,
/// and no prefix of the run ever holds more than `capacity` keys.
pub proof fn lemma_capacity_eviction(cap: usize, policy: Policy, ks: Seq<i32>, v: u32, now: u64)
    requires
        cap >= 1,
        ks.no_duplicates(),
        ks.len() == cap + 1,
    ensures
        ({
            let st = run_add_keys(
                Seq::<CacheEntry<Seq<u32>>>::empty(),
                Bound::Capacity(cap),
                policy,
                ks,
                v,
                now,
            );
            &&& model_keys(st) == ks.subrange(1, ks.len() as int)
            &&& !seq_has_key(st, ks[0])
            &&& forall|j: int| 1 <= j < ks.len() ==> seq_has_key(st, #[trigger] ks[j])
        }),
        forall|i: int|
            0 <= i <= ks.len() ==> run_add_keys(
                Seq::<CacheEntry<Seq<u32>>>::empty(),
                Bound::Capacity(cap),
                policy,
                #[trigger] ks.take(i),
                v,
                now,
            ).len() <= cap,
{
    let b = Bound::Capacity(cap);
    let empty = Seq::<CacheEntry<Seq<u32>>>::empty();
    lemma_capacity_fill_state(cap, policy, ks, v, now, cap as int);
    let prev = run_add_keys(empty, b, policy, ks.take(cap as int), v, now);
    assert(ks.take(ks.len() as int) =~= ks);
    assert(ks.take(ks.len() as int).drop_last() =~= ks.take(cap as int));
    assert(ks.take(ks.len() as int).last() == ks[cap as int]);
    let st = run_add_keys(empty, b, policy, ks, v, now);
    assert(st == step_add(prev, b, policy, ks[cap as int], v, now)) by {
        assert(run_add_keys(empty, b, policy, ks.take(ks.len() as int), v, now) == run_add_keys(
            empty,
            b,
            policy,
            ks,
            v,
            now,
        ));
    }
    lemma_capacity_time_free(prev, cap, now);
    assert(!seq_has_key(prev, ks[cap as int])) by {
        if seq_has_key(prev, ks[cap as int]) {
            let j = choose|j: int| 0 <= j < prev.len() && prev[j].key == ks[cap as int];
            assert(model_keys(prev)[j] == ks[cap as int]);
            assert(ks.take(cap as int)[j] == ks[j]);
            assert(ks[j] == ks[cap as int]);
        }
    }
    let g = gathered_values(prev, b, policy, ks[cap as int], v, now);
    assert(st == prev.subrange(1, prev.len() as int).push(
        CacheEntry { key: ks[cap as int], payload: g, stamp: 0 },
    )) by {
        assert(b.fresh_stamp(now) == 0);
        assert(prev.len() == cap);
    }
    assert(model_keys(st) =~= ks.subrange(1, ks.len() as int)) by {
        assert forall|j: int| 0 <= j < st.len() implies model_keys(st)[j] == ks[j + 1] by {
            if j < st.len() - 1 {
                assert(st[j] == prev[j + 1]);
                assert(model_keys(prev)[j + 1] == prev[j + 1].key);
                assert(ks.take(cap as int)[j + 1] == ks[j + 1]);
            } else {
                assert(st[j].key == ks[cap as int]);
            }
        }
    }
    assert(!seq_has_key(st, ks[0])) by {
        if seq_has_key(st, ks[0]) {
            let j = choose|j: int| 0 <= j < st.len() && st[j].key == ks[0];
            assert(model_keys(st)[j] == ks[0]);
            assert(ks.subrange(1, ks.len() as int)[j] == ks[j + 1]);
            assert(ks[j + 1] == ks[0]);
        }
    }
    assert forall|j: int| 1 <= j < ks.len() implies seq_has_key(st, #[trigger] ks[j]) by {
        assert(model_keys(st)[j - 1] == ks.subrange(1, ks.len() as int)[j - 1]);
        assert(st[j - 1].key == ks[j]);
    }
    assert forall|i: int| 0 <= i <= ks.len() implies run_add_keys(
        empty,
        b,
        policy,
        #[trigger] ks.take(i),
        v,
        now,
    ).len() <= cap by {
        if i <= cap {
            lemma_capacity_fill_state(cap, policy, ks, v, now, i);
        } else {
            assert(i == ks.len());
            assert(ks.take(i) =~= ks);
            assert(run_add_keys(empty, b, policy, ks.take(i), v, now) == st);
        }
    }
}

} // verus!
