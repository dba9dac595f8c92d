use vstd::prelude::*;

verus! {

/// Limits of a cache. Times are counted in one unit chosen by the caller
/// (seconds or milliseconds of a monotonic clock).
#[derive(Clone, Copy, Debug)]
pub struct CacheConfig {
    /// Bound on the sum of the byte lengths of the entries.
    pub max_capacity: usize,
    /// Bytes the caller expects to hold early on; a sizing hint only.
    pub initial_capacity: usize,
    /// How long an entry may be served after it was stored.
    pub time_to_live: u64,
    /// How long an entry may be served after it was last read.
    pub time_to_idle: u64,
}

/// What an entry of the cache holds: its key, its bytes, when it was made and
/// when it was last read.
pub struct EntryModel {
    pub key: Seq<char>,
    pub value: Seq<u8>,
    pub created: u64,
    pub last_access: u64,
}

/// A moment `start + span` has been reached at `now`.
pub open spec fn reached(start: u64, span: u64, now: u64) -> bool {
    now as int >= start as int + span as int
}

/// An entry may still be served at `now`: neither its time-to-live since
/// creation nor its time-to-idle since the last read has run out.
pub open spec fn is_live(e: EntryModel, cfg: CacheConfig, now: u64) -> bool {
    !reached(e.created, cfg.time_to_live, now) && !reached(e.last_access, cfg.time_to_idle, now)
}

/// Sum of the weights (byte lengths) of the entries.
pub open spec fn total_weight(es: Seq<EntryModel>) -> nat
    decreases es.len(),
{
    if es.len() == 0 {
        0
    } else {
        total_weight(es.drop_last()) + es.last().value.len()
    }
}

pub open spec fn keys_unique(es: Seq<EntryModel>) -> bool {
    forall|i: int, j: int|
        0 <= i < es.len() && 0 <= j < es.len() && i != j ==> es[i].key != es[j].key
}

pub open spec fn has_key(es: Seq<EntryModel>, k: Seq<char>) -> bool {
    exists|i: int| 0 <= i < es.len() && es[i].key == k
}

/// Position of the entry for `k`, or -1 where there is none.
pub open spec fn index_of(es: Seq<EntryModel>, k: Seq<char>) -> int {
    if has_key(es, k) {
        choose|i: int| 0 <= i < es.len() && es[i].key == k
    } else {
        -1
    }
}

/// The bytes that a read of `k` at `now` returns.
pub open spec fn lookup(es: Seq<EntryModel>, k: Seq<char>, cfg: CacheConfig, now: u64) -> Option<
    Seq<u8>,
> {
    let i = index_of(es, k);
    if i >= 0 && is_live(es[i], cfg, now) {
        Some(es[i].value)
    } else {
        None
    }
}

/// The entries after a read of `k` at `now`: a live entry has its read time
/// set to `now`, an expired one is removed.
pub open spec fn after_lookup(es: Seq<EntryModel>, k: Seq<char>, cfg: CacheConfig, now: u64) -> Seq<
    EntryModel,
> {
    let i = index_of(es, k);
    if i < 0 {
        es
    } else if is_live(es[i], cfg, now) {
        es.update(i, EntryModel { last_access: now, ..es[i] })
    } else {
        es.remove(i)
    }
}

/// The entries without the one for `k`.
pub open spec fn without(es: Seq<EntryModel>, k: Seq<char>) -> Seq<EntryModel> {
    let i = index_of(es, k);
    if i < 0 {
        es
    } else {
        es.remove(i)
    }
}

/// An entry stays through a sweep at `now` that also drops key `k`.
pub open spec fn keeps(e: EntryModel, k: Option<Seq<char>>, cfg: CacheConfig, now: u64) -> bool {
    k != Some(e.key) && is_live(e, cfg, now)
}

/// The entries that stay, in their order.
pub open spec fn retained(es: Seq<EntryModel>, k: Option<Seq<char>>, cfg: CacheConfig, now: u64) -> Seq<
    EntryModel,
>
    decreases es.len(),
{
    if es.len() == 0 {
        es
    } else {
        let rest = retained(es.drop_last(), k, cfg, now);
        if keeps(es.last(), k, cfg, now) {
            rest.push(es.last())
        } else {
            rest
        }
    }
}

/// Position of the entry read longest ago; the first of equals.
pub open spec fn oldest(es: Seq<EntryModel>) -> int
    decreases es.len(),
{
    if es.len() <= 1 {
        0
    } else {
        let i = oldest(es.drop_last());
        if es.last().last_access < es[i].last_access {
            es.len() - 1
        } else {
            i
        }
    }
}

/// Removes the entries read longest ago until `w` more fits under `cap`, or
/// nothing is left.
pub open spec fn evict(es: Seq<EntryModel>, w: nat, cap: nat) -> Seq<EntryModel>
    decreases es.len(),
{
    let i = oldest(es);
    if es.len() == 0 || total_weight(es) + w <= cap {
        es
    } else if 0 <= i < es.len() {
        evict(es.remove(i), w, cap)
    } else {
        es
    }
}

/// The entries after `v` is stored under `k` at `now`: the old entry for `k`
/// and every expired entry leave, the least recently read make room, and the
/// new entry comes last.
pub open spec fn after_insert(
    es: Seq<EntryModel>,
    k: Seq<char>,
    v: Seq<u8>,
    cfg: CacheConfig,
    now: u64,
) -> Seq<EntryModel> {
    evict(retained(es, Some(k), cfg, now), v.len(), cfg.max_capacity as nat).push(
        EntryModel { key: k, value: v, created: now, last_access: now },
    )
}

/// The shape every reachable state keeps: one entry per key, and the weight
/// under the bound unless one entry alone is over it.
pub open spec fn entries_wf(es: Seq<EntryModel>, cfg: CacheConfig) -> bool {
    &&& keys_unique(es)
    &&& (total_weight(es) <= cfg.max_capacity || es.len() <= 1)
}

// ---- lemmas on the model ----

pub proof fn lemma_weight_push(es: Seq<EntryModel>, e: EntryModel)
    ensures
        total_weight(es.push(e)) == total_weight(es) + e.value.len(),
{
    assert(es.push(e).drop_last() =~= es);
}

pub proof fn lemma_weight_remove(es: Seq<EntryModel>, i: int)
    requires
        0 <= i < es.len(),
    ensures
        total_weight(es.remove(i)) + es[i].value.len() == total_weight(es),
    decreases es.len(),
{
    if i == es.len() - 1 {
        assert(es.remove(i) =~= es.drop_last());
    } else {
        let r = es.remove(i);
        assert(r.drop_last() =~= es.drop_last().remove(i));
        assert(r.last() == es.last());
        lemma_weight_remove(es.drop_last(), i);
    }
}

pub proof fn lemma_weight_update(es: Seq<EntryModel>, i: int, e: EntryModel)
    requires
        0 <= i < es.len(),
        e.value == es[i].value,
    ensures
        total_weight(es.update(i, e)) == total_weight(es),
    decreases es.len(),
{
    let u = es.update(i, e);
    if i == es.len() - 1 {
        assert(u.drop_last() =~= es.drop_last());
    } else {
        assert(u.drop_last() =~= es.drop_last().update(i, e));
        lemma_weight_update(es.drop_last(), i, e);
    }
}

pub proof fn lemma_weight_prefix(es: Seq<EntryModel>, j: int)
    requires
        0 <= j <= es.len(),
    ensures
        total_weight(es.subrange(0, j)) <= total_weight(es),
    decreases es.len(),
{
    if j == es.len() {
        assert(es.subrange(0, j) =~= es);
    } else {
        assert(es.drop_last().subrange(0, j) =~= es.subrange(0, j));
        lemma_weight_prefix(es.drop_last(), j);
    }
}

pub proof fn lemma_retained(es: Seq<EntryModel>, k: Option<Seq<char>>, cfg: CacheConfig, now: u64)
    ensures
        total_weight(retained(es, k, cfg, now)) <= total_weight(es),
        retained(es, k, cfg, now).len() <= es.len(),
        forall|i: int|
            0 <= i < retained(es, k, cfg, now).len() ==> keeps(
                #[trigger] retained(es, k, cfg, now)[i],
                k,
                cfg,
                now,
            ),
        forall|i: int|
            0 <= i < retained(es, k, cfg, now).len() ==> exists|j: int|
                0 <= j < es.len() && #[trigger] retained(es, k, cfg, now)[i] == es[j],
        keys_unique(es) ==> keys_unique(retained(es, k, cfg, now)),
    decreases es.len(),
{
    if es.len() > 0 {
        let d = es.drop_last();
        lemma_retained(d, k, cfg, now);
        let rest = retained(d, k, cfg, now);
        if keeps(es.last(), k, cfg, now) {
            lemma_weight_push(rest, es.last());
            let r = rest.push(es.last());
            assert forall|i: int| 0 <= i < r.len() implies exists|j: int|
                0 <= j < es.len() && #[trigger] r[i] == es[j] by {
                if i < rest.len() {
                    let j = choose|j: int| 0 <= j < d.len() && rest[i] == d[j];
                    assert(r[i] == es[j]);
                } else {
                    assert(r[i] == es[es.len() - 1]);
                }
            }
            if keys_unique(es) {
                assert forall|a: int, b: int|
                    0 <= a < r.len() && 0 <= b < r.len() && a != b implies r[a].key != r[b].key by {
                    if a < rest.len() && b < rest.len() {
                    } else if a < rest.len() {
                        let j = choose|j: int| 0 <= j < d.len() && rest[a] == d[j];
                        assert(es[j] == rest[a]);
                    } else {
                        let j = choose|j: int| 0 <= j < d.len() && rest[b] == d[j];
                        assert(es[j] == rest[b]);
                    }
                }
            }
        } else {
            assert forall|i: int| 0 <= i < rest.len() implies exists|j: int|
                0 <= j < es.len() && #[trigger] rest[i] == es[j] by {
                let j = choose|j: int| 0 <= j < d.len() && rest[i] == d[j];
                assert(rest[i] == es[j]);
            }
        }
    }
}

pub proof fn lemma_oldest(es: Seq<EntryModel>)
    requires
        es.len() > 0,
    ensures
        0 <= oldest(es) < es.len(),
        forall|j: int| 0 <= j < es.len() ==> es[oldest(es)].last_access <= #[trigger] es[j].last_access,
    decreases es.len(),
{
    if es.len() > 1 {
        let d = es.drop_last();
        lemma_oldest(d);
        let o = oldest(es);
        assert forall|j: int| 0 <= j < es.len() implies es[o].last_access <= #[trigger] es[j].last_access by {
            if j < d.len() {
                assert(d[j] == es[j]);
                assert(d[oldest(d)] == es[oldest(d)]);
            }
        }
    }
}

pub proof fn lemma_remove_unique(es: Seq<EntryModel>, i: int)
    requires
        0 <= i < es.len(),
        keys_unique(es),
    ensures
        keys_unique(es.remove(i)),
{
}

pub proof fn lemma_evict(es: Seq<EntryModel>, w: nat, cap: nat)
    ensures
        total_weight(evict(es, w, cap)) + w <= cap || evict(es, w, cap).len() == 0,
        total_weight(evict(es, w, cap)) <= total_weight(es),
        forall|a: int| 0 <= a < evict(es, w, cap).len() ==> exists|j: int|
            0 <= j < es.len() && #[trigger] evict(es, w, cap)[a] == es[j],
        keys_unique(es) ==> keys_unique(evict(es, w, cap)),
    decreases es.len(),
{
    if es.len() == 0 || total_weight(es) + w <= cap {
        let r = evict(es, w, cap);
        assert forall|a: int| 0 <= a < r.len() implies exists|j: int|
            0 <= j < es.len() && #[trigger] r[a] == es[j] by {
            assert(r[a] == es[a]);
        }
    } else {
        lemma_oldest(es);
        let i = oldest(es);
        let s = es.remove(i);
        lemma_weight_remove(es, i);
        lemma_evict(s, w, cap);
        assert forall|a: int| 0 <= a < s.len() implies exists|j: int|
            0 <= j < es.len() && #[trigger] s[a] == es[j] by {
            if a < i {
                assert(s[a] == es[a]);
            } else {
                assert(s[a] == es[a + 1]);
            }
        }
        let r = evict(s, w, cap);
        assert forall|a: int| 0 <= a < r.len() implies exists|j: int|
            0 <= j < es.len() && #[trigger] r[a] == es[j] by {
            let b = choose|b: int| 0 <= b < s.len() && r[a] == s[b];
            let j = choose|j: int| 0 <= j < es.len() && s[b] == es[j];
        }
        if keys_unique(es) {
            lemma_remove_unique(es, i);
        }
    }
}

/// Storing an entry keeps the state well formed.
pub proof fn lemma_insert_wf(
    es: Seq<EntryModel>,
    k: Seq<char>,
    v: Seq<u8>,
    cfg: CacheConfig,
    now: u64,
)
    requires
        keys_unique(es),
    ensures
        entries_wf(after_insert(es, k, v, cfg, now), cfg),
        v.len() <= cfg.max_capacity ==> total_weight(after_insert(es, k, v, cfg, now))
            <= cfg.max_capacity,
{
    let r = retained(es, Some(k), cfg, now);
    lemma_retained(es, Some(k), cfg, now);
    let d = evict(r, v.len(), cfg.max_capacity as nat);
    lemma_evict(r, v.len(), cfg.max_capacity as nat);
    let n = EntryModel { key: k, value: v, created: now, last_access: now };
    lemma_weight_push(d, n);
    let f = d.push(n);
    assert forall|a: int, b: int|
        0 <= a < f.len() && 0 <= b < f.len() && a != b implies f[a].key != f[b].key by {
        if a < d.len() && b < d.len() {
        } else if a < d.len() {
            let j = choose|j: int| 0 <= j < r.len() && d[a] == r[j];
            assert(keeps(r[j], Some(k), cfg, now));
        } else {
            let j = choose|j: int| 0 <= j < r.len() && d[b] == r[j];
            assert(keeps(r[j], Some(k), cfg, now));
        }
    }
    if d.len() == 0 {
        assert(total_weight(d) == 0);
    }
}

pub proof fn lemma_index_at(es: Seq<EntryModel>, k: Seq<char>, i: int)
    requires
        keys_unique(es),
        0 <= i < es.len(),
        es[i].key == k,
    ensures
        has_key(es, k),
        index_of(es, k) == i,
{
    assert(has_key(es, k));
}

/// After a read that misses, no entry is left for the key.
pub proof fn lemma_miss_leaves_no_entry(es: Seq<EntryModel>, k: Seq<char>, cfg: CacheConfig, now: u64)
    requires
        keys_unique(es),
        lookup(es, k, cfg, now) is None,
    ensures
        !has_key(after_lookup(es, k, cfg, now), k),
{
    let i = index_of(es, k);
    if i >= 0 {
        if has_key(es, k) {
            let j = choose|j: int| 0 <= j < es.len() && es[j].key == k;
        }
        let r = es.remove(i);
        if has_key(r, k) {
            let j = choose|j: int| 0 <= j < r.len() && r[j].key == k;
            if j < i {
                assert(es[j].key == k);
            } else {
                assert(es[j + 1].key == k);
            }
        }
    }
}

/// The entry just stored is the one a read of its key finds.
pub proof fn lemma_insert_found(es: Seq<EntryModel>, k: Seq<char>, v: Seq<u8>, cfg: CacheConfig, now: u64)
    requires
        keys_unique(es),
    ensures
        ({
            let r = after_insert(es, k, v, cfg, now);
            &&& has_key(r, k)
            &&& index_of(r, k) == r.len() - 1
            &&& r[r.len() - 1] == (EntryModel { key: k, value: v, created: now, last_access: now })
        }),
{
    lemma_insert_wf(es, k, v, cfg, now);
    let r = after_insert(es, k, v, cfg, now);
    lemma_index_at(r, k, r.len() - 1);
}

} // verus!
