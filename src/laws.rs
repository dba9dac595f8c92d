use vstd::prelude::*;

use crate::cache::{
    after_begin, after_complete, begin_outcome, unmark, CacheModel, LoadError,
};
use crate::model::{
    after_insert, after_lookup, entries_wf, evict, has_key, index_of, is_live, keys_unique,
    lemma_evict, lemma_index_at, lemma_insert_found, lemma_insert_wf, lemma_miss_leaves_no_entry,
    lemma_oldest, lookup, oldest, reached, retained, total_weight,
    CacheConfig, EntryModel,
};

verus! {

/// Storing an entry that is no heavier than the capacity leaves the cache
/// well formed and its total weight within the capacity.
pub proof fn law_capacity_bound(m: CacheModel, k: Seq<char>, v: Seq<u8>, now: u64)
    requires
        m.wf(),
        v.len() <= m.config.max_capacity,
    ensures
        entries_wf(after_insert(m.entries, k, v, m.config, now), m.config),
        total_weight(after_insert(m.entries, k, v, m.config, now)) <= m.config.max_capacity,
{
    lemma_insert_wf(m.entries, k, v, m.config, now);
}

proof fn lemma_evict_least_recent(es: Seq<EntryModel>, w: nat, cap: nat)
    ensures
        forall|a: int, b: int|
            #![trigger es[a], evict(es, w, cap)[b]]
            0 <= a < es.len() && 0 <= b < evict(es, w, cap).len() && !evict(es, w, cap).contains(
                es[a],
            ) ==> es[a].last_access <= evict(es, w, cap)[b].last_access,
    decreases es.len(),
{
    let r = evict(es, w, cap);
    if es.len() == 0 || total_weight(es) + w <= cap {
        assert forall|a: int, b: int|
            #![trigger es[a], r[b]]
            0 <= a < es.len() && 0 <= b < r.len() && !r.contains(es[a]) implies es[a].last_access
            <= r[b].last_access by {
            assert(r[a] == es[a]);
        }
    } else {
        lemma_oldest(es);
        let i = oldest(es);
        let s = es.remove(i);
        lemma_evict(s, w, cap);
        lemma_evict_least_recent(s, w, cap);
        assert forall|a: int, b: int|
            #![trigger es[a], r[b]]
            0 <= a < es.len() && 0 <= b < r.len() && !r.contains(es[a]) implies es[a].last_access
            <= r[b].last_access by {
            let j = choose|j: int| 0 <= j < s.len() && r[b] == s[j];
            if a == i {
                if j < i {
                    assert(s[j] == es[j]);
                } else {
                    assert(s[j] == es[j + 1]);
                }
            } else if a < i {
                assert(s[a] == es[a]);
            } else {
                assert(s[a - 1] == es[a]);
            }
        }
    }
}

/// Room for a new entry is made from the entries read longest ago: each
/// live entry that an insertion evicts was read no later than each entry
/// that stays.
pub proof fn law_evicts_least_recent(
    es: Seq<EntryModel>,
    k: Seq<char>,
    v: Seq<u8>,
    cfg: CacheConfig,
    now: u64,
)
    ensures
        ({
            let r = retained(es, Some(k), cfg, now);
            let d = evict(r, v.len(), cfg.max_capacity as nat);
            forall|a: int, b: int|
                #![trigger r[a], d[b]]
                0 <= a < r.len() && 0 <= b < d.len() && !d.contains(r[a]) ==> r[a].last_access
                    <= d[b].last_access
        }),
{
    lemma_evict_least_recent(retained(es, Some(k), cfg, now), v.len(), cfg.max_capacity as nat);
}

proof fn lemma_unmark(ls: Seq<Seq<char>>, k: Seq<char>)
    requires
        crate::cache::loading_unique(ls),
    ensures
        !unmark(ls, k).contains(k),
        forall|x: Seq<char>| x != k ==> (unmark(ls, k).contains(x) <==> ls.contains(x)),
{
    if ls.contains(k) {
        let i = ls.index_of(k);
        let r = ls.remove(i);
        assert forall|x: Seq<char>| x != k implies (r.contains(x) <==> ls.contains(x)) by {
            if ls.contains(x) {
                let j = choose|j: int| 0 <= j < ls.len() && ls[j] == x;
                if j < i {
                    assert(r[j] == x);
                } else {
                    assert(r[j - 1] == x);
                }
            }
            if r.contains(x) {
                let j = choose|j: int| 0 <= j < r.len() && r[j] == x;
                if j < i {
                    assert(ls[j] == x);
                } else {
                    assert(ls[j + 1] == x);
                }
            }
        }
        if r.contains(k) {
            let j = choose|j: int| 0 <= j < r.len() && r[j] == k;
            if j < i {
                assert(ls[j] == k);
            } else {
                assert(ls[j + 1] == k);
            }
        }
    }
}

/// At most one load per key: a caller told to load marks the key, and from
/// then on, at any later time, no other caller is told to load it until the
/// load completes; a key under load never hands out a second load.
pub proof fn law_single_flight(m: CacheModel, k: Seq<char>, t1: u64, t2: u64)
    requires
        m.wf(),
    ensures
        m.loading.contains(k) ==> !(begin_outcome(m, k, t1) is Lead),
        begin_outcome(m, k, t1) is Lead ==> after_begin(m, k, t1).loading.contains(k),
        begin_outcome(m, k, t1) is Lead ==> begin_outcome(after_begin(m, k, t1), k, t2) is Join,
{
    if begin_outcome(m, k, t1) is Lead {
        let a = after_begin(m, k, t1);
        assert(a.loading[a.loading.len() - 1] == k);
        lemma_miss_leaves_no_entry(m.entries, k, m.config, t1);
    }
}

/// A failed load leaves no trace: the entries are as they were, the key is
/// no longer under load, and the next caller that misses is told to load it
/// afresh.
pub proof fn law_failure_not_cached(m: CacheModel, k: Seq<char>, e: LoadError, t1: u64, t2: u64)
    requires
        m.wf(),
    ensures
        after_complete(m, k, Err(e), t1).entries == m.entries,
        !after_complete(m, k, Err(e), t1).loading.contains(k),
        lookup(m.entries, k, m.config, t2) is None ==> begin_outcome(
            after_complete(m, k, Err(e), t1),
            k,
            t2,
        ) is Lead,
{
    lemma_unmark(m.loading, k);
}

/// A successful load is served: right after it completes, a read of the
/// key returns the loaded bytes, provided neither time limit is zero.
pub proof fn law_success_cached(m: CacheModel, k: Seq<char>, v: Seq<u8>, now: u64)
    requires
        m.wf(),
        m.config.time_to_live > 0,
        m.config.time_to_idle > 0,
    ensures
        lookup(after_complete(m, k, Ok(v), now).entries, k, m.config, now) == Some(v),
        !after_complete(m, k, Ok(v), now).loading.contains(k),
{
    lemma_unmark(m.loading, k);
    lemma_insert_found(m.entries, k, v, m.config, now);
}

/// No entry is served once its time-to-live since creation has run out,
/// however recently it was read.
pub proof fn law_ttl_expiry(es: Seq<EntryModel>, k: Seq<char>, cfg: CacheConfig, now: u64)
    requires
        has_key(es, k),
        reached(es[index_of(es, k)].created, cfg.time_to_live, now),
    ensures
        lookup(es, k, cfg, now) is None,
{
}

/// A read refreshes the idle timer: after a hit at `t1`, the entry is still
/// served at a later `t2` exactly when less than the time-to-idle has passed
/// since `t1` and its time-to-live has not run out.
pub proof fn law_idle_refresh(es: Seq<EntryModel>, k: Seq<char>, cfg: CacheConfig, t1: u64, t2: u64)
    requires
        keys_unique(es),
        lookup(es, k, cfg, t1) is Some,
    ensures
        lookup(after_lookup(es, k, cfg, t1), k, cfg, t2) is Some <==> (!reached(
            t1,
            cfg.time_to_idle,
            t2,
        ) && !reached(es[index_of(es, k)].created, cfg.time_to_live, t2)),
{
    let i = index_of(es, k);
    let n = EntryModel { last_access: t1, ..es[i] };
    let u = es.update(i, n);
    assert(keys_unique(u)) by {
        assert forall|a: int, b: int|
            0 <= a < u.len() && 0 <= b < u.len() && a != b implies u[a].key != u[b].key by {
            assert(es[a].key != es[b].key);
        }
    }
    lemma_index_at(u, k, i);
    assert(is_live(u[i], cfg, t2) == (!reached(t1, cfg.time_to_idle, t2) && !reached(
        es[i].created,
        cfg.time_to_live,
        t2,
    )));
}

} // verus!
