use vstd::prelude::*;

use crate::model::{
    after_insert, after_lookup, entries_wf, evict, index_of, is_live, keys_unique, lemma_insert_wf,
    lemma_oldest, lemma_remove_unique, lemma_retained, lemma_weight_prefix, lemma_weight_push,
    lemma_weight_remove, lemma_weight_update, lookup, oldest, retained, total_weight, without,
    CacheConfig, EntryModel, has_key, keeps, lemma_insert_found, lemma_miss_leaves_no_entry,
};

verus! {

/// Why the origin could not supply the bytes of a key.
#[derive(Clone, Copy, Debug, PartialEq, Eq, Structural)]
pub enum LoadError {
    /// Nothing exists at the resolved path.
    NotFound,
    /// The read failed for another reason.
    IoError,
}

struct Entry {
    key: String,
    value: Vec<u8>,
    created: u64,
    last_access: u64,
}

impl View for Entry {
    type V = EntryModel;

    closed spec fn view(&self) -> EntryModel {
        EntryModel {
            key: self.key@,
            value: self.value@,
            created: self.created,
            last_access: self.last_access,
        }
    }
}

spec fn models(v: Seq<Entry>) -> Seq<EntryModel> {
    v.map_values(|e: Entry| e@)
}

/// What the cache holds, seen from outside: its entries in order of
/// insertion, the keys whose load is under way, and its limits.
pub struct CacheModel {
    pub entries: Seq<EntryModel>,
    pub loading: Seq<Seq<char>>,
    pub config: CacheConfig,
}

/// An in-memory store of byte payloads weighted by their length and bounded
/// by a total capacity, a time-to-live and a time-to-idle. Every operation
/// takes the current time, so that expiry is decided by the caller's clock.
pub struct WeightedCache {
    config: CacheConfig,
    entries: Vec<Entry>,
    loading: Vec<String>,
    total: usize,
}

impl View for WeightedCache {
    type V = CacheModel;

    closed spec fn view(&self) -> CacheModel {
        CacheModel {
            entries: models(self.entries@),
            loading: self.loading@.map_values(|s: String| s@),
            config: self.config,
        }
    }
}

/// The bytes held by an optional buffer.
pub open spec fn bytes_of(r: Option<Vec<u8>>) -> Option<Seq<u8>> {
    match r {
        Some(v) => Some(v@),
        None => None,
    }
}

/// What a caller learns when it asks for a key.
pub enum Lookup {
    /// A live entry was there; here are its bytes.
    Hit(Vec<u8>),
    /// Nobody was loading the key: this caller loads it and then calls
    /// `complete`.
    Lead,
    /// Another caller is loading the key: wait for its result.
    Join,
}

/// The outcome of a lookup, over plain values.
pub enum Outcome {
    Hit(Seq<u8>),
    Lead,
    Join,
}

impl View for Lookup {
    type V = Outcome;

    open spec fn view(&self) -> Outcome {
        match self {
            Lookup::Hit(v) => Outcome::Hit(v@),
            Lookup::Lead => Outcome::Lead,
            Lookup::Join => Outcome::Join,
        }
    }
}

/// A load result over plain values.
pub open spec fn load_of(r: Result<Vec<u8>, LoadError>) -> Result<Seq<u8>, LoadError> {
    match r {
        Ok(v) => Ok(v@),
        Err(e) => Err(e),
    }
}

/// What `begin` answers for `k` at `now`.
pub open spec fn begin_outcome(m: CacheModel, k: Seq<char>, now: u64) -> Outcome {
    match lookup(m.entries, k, m.config, now) {
        Some(v) => Outcome::Hit(v),
        None => if m.loading.contains(k) {
            Outcome::Join
        } else {
            Outcome::Lead
        },
    }
}

/// The state after `begin` for `k` at `now`: the read is made, and a caller
/// that is to load has its key marked as loading.
pub open spec fn after_begin(m: CacheModel, k: Seq<char>, now: u64) -> CacheModel {
    CacheModel {
        entries: after_lookup(m.entries, k, m.config, now),
        loading: if begin_outcome(m, k, now) is Lead {
            m.loading.push(k)
        } else {
            m.loading
        },
        config: m.config,
    }
}

/// The loads under way, without the one for `k`.
pub open spec fn unmark(ls: Seq<Seq<char>>, k: Seq<char>) -> Seq<Seq<char>> {
    if ls.contains(k) {
        ls.remove(ls.index_of(k))
    } else {
        ls
    }
}

/// The state after the load of `k` ended with `res` at `now`: the mark goes,
/// and bytes that were loaded are stored.
pub open spec fn after_complete(
    m: CacheModel,
    k: Seq<char>,
    res: Result<Seq<u8>, LoadError>,
    now: u64,
) -> CacheModel {
    CacheModel {
        entries: match res {
            Ok(v) => after_insert(m.entries, k, v, m.config, now),
            Err(_) => m.entries,
        },
        loading: unmark(m.loading, k),
        config: m.config,
    }
}

/// The entries after `fetch` of `k` at `now` whose loader, if it ran,
/// returned `res`.
pub open spec fn after_fetch(
    m: CacheModel,
    k: Seq<char>,
    res: Result<Seq<u8>, LoadError>,
    now: u64,
) -> Seq<EntryModel> {
    let read = after_lookup(m.entries, k, m.config, now);
    match lookup(m.entries, k, m.config, now) {
        Some(_) => read,
        None => match res {
            Ok(v) => after_insert(read, k, v, m.config, now),
            Err(_) => read,
        },
    }
}

/// No key is twice among the loads under way.
pub open spec fn loading_unique(ls: Seq<Seq<char>>) -> bool {
    forall|i: int, j: int| 0 <= i < ls.len() && 0 <= j < ls.len() && i != j ==> ls[i] != ls[j]
}

impl CacheModel {
    pub open spec fn wf(self) -> bool {
        &&& entries_wf(self.entries, self.config)
        &&& loading_unique(self.loading)
    }
}

impl WeightedCache {
    pub closed spec fn wf(&self) -> bool {
        &&& self@.wf()
        &&& self.total == total_weight(self@.entries)
    }

    /// An empty cache with the given limits.
    pub fn new(config: CacheConfig) -> (r: WeightedCache)
        ensures
            r.wf(),
            r@.entries.len() == 0,
            r@.loading.len() == 0,
            r@.config == config,
    {
        let r = WeightedCache { config, entries: Vec::new(), loading: Vec::new(), total: 0 };
        proof {
            assert(r@.entries =~= Seq::<EntryModel>::empty());
            assert(r@.loading =~= Seq::<Seq<char>>::empty());
        }
        r
    }

    /// The limits the cache was made with.
    pub fn config(&self) -> (r: CacheConfig)
        ensures
            r == self@.config,
    {
        self.config
    }

    /// Number of entries held, live or not yet swept.
    pub fn len(&self) -> (r: usize)
        ensures
            r == self@.entries.len(),
    {
        self.entries.len()
    }

    /// Sum of the byte lengths of the entries held.
    pub fn weight(&self) -> (r: usize)
        requires
            self.wf(),
        ensures
            r == total_weight(self@.entries),
    {
        self.total
    }

    fn entry_is_live(&self, e: &Entry, now: u64) -> (r: bool)
        ensures
            r == is_live(e@, self@.config, now),
    {
        let ttl = self.config.time_to_live;
        let tti = self.config.time_to_idle;
        let lived = now >= e.created && now - e.created >= ttl;
        let idled = now >= e.last_access && now - e.last_access >= tti;
        !lived && !idled
    }

    /// Position of the entry for `key`, if there is one.
    fn find(&self, key: &String) -> (r: Option<usize>)
        requires
            self.wf(),
        ensures
            match r {
                Some(i) => i < self@.entries.len() && index_of(self@.entries, key@) == i,
                None => index_of(self@.entries, key@) == -1,
            },
    {
        let ghost es = self@.entries;
        let n = self.entries.len();
        let mut i: usize = 0;
        while i < n
            invariant
                n == self.entries@.len(),
                es == models(self.entries@),
                i <= n,
                keys_unique(es),
                forall|j: int| 0 <= j < i ==> es[j].key != key@,
            decreases n - i,
        {
            if self.entries[i].key == *key {
                proof {
                    assert(es[i as int].key == key@);
                    assert(has_key(es, key@));
                    let c = choose|c: int| 0 <= c < es.len() && es[c].key == key@;
                    assert(keys_unique(es));
                }
                return Some(i);
            }
            i = i + 1;
        }
        None
    }

    /// Position of the entry read longest ago; the first of equals.
    fn oldest_position(&self) -> (r: usize)
        requires
            self.entries.len() > 0,
        ensures
            r as int == oldest(self@.entries),
    {
        let ghost es = self@.entries;
        let n = self.entries.len();
        let mut best: usize = 0;
        let mut j: usize = 1;
        proof {
            assert(es.subrange(0, 1).len() == 1);
        }
        while j < n
            invariant
                n == self.entries@.len(),
                es == models(self.entries@),
                1 <= j <= n,
                best < j,
                best as int == oldest(es.subrange(0, j as int)),
            decreases n - j,
        {
            proof {
                let s = es.subrange(0, j as int + 1);
                assert(s.drop_last() =~= es.subrange(0, j as int));
                assert(s.last() == es[j as int]);
                assert(s[best as int] == es[best as int]);
            }
            if self.entries[j].last_access < self.entries[best].last_access {
                best = j;
            }
            j = j + 1;
        }
        proof {
            assert(es.subrange(0, n as int) =~= es);
        }
        best
    }

    /// Drops every expired entry, and the entry for `key` if one is given.
    fn retain_fresh(&mut self, key: Option<&String>, now: u64)
        requires
            old(self).wf(),
        ensures
            final(self).wf(),
            final(self)@.entries == retained(
                old(self)@.entries,
                match key {
                    Some(k) => Some(k@),
                    None => None,
                },
                old(self)@.config,
                now,
            ),
            final(self)@.loading == old(self)@.loading,
            final(self)@.config == old(self)@.config,
    {
        let ghost k: Option<Seq<char>> = match key {
            Some(k) => Some(k@),
            None => None,
        };
        let ghost es = self@.entries;
        let ghost cfg = self.config;
        let mut rest: Vec<Entry> = Vec::new();
        std::mem::swap(&mut rest, &mut self.entries);
        let n = rest.len();
        let mut kept: Vec<Entry> = Vec::new();
        let mut total: usize = 0;
        let mut j: usize = 0;
        proof {
            assert(es.subrange(0, 0) =~= Seq::<EntryModel>::empty());
            assert(models(kept@) =~= Seq::<EntryModel>::empty());
            assert(models(rest@) =~= es.subrange(0, n as int));
        }
        while j < n
            invariant
                self.config == cfg,
                k == match key {
                    Some(kk) => Some(kk@),
                    None => None::<Seq<char>>,
                },
                self@.loading == old(self)@.loading,
                es == models(old(self).entries@),
                n == es.len(),
                j <= n,
                old(self).total == total_weight(es),
                keys_unique(es),
                rest@.len() == n - j,
                models(rest@) == es.subrange(j as int, n as int),
                models(kept@) == retained(es.subrange(0, j as int), k, cfg, now),
                total == total_weight(models(kept@)),
            decreases n - j,
        {
            proof {
                assert(models(rest@)[0] == rest@[0]@);
            }
            let ghost before = rest@;
            let e = rest.remove(0);
            proof {
                assert(e@ == es[j as int]);
                assert forall|i: int| 0 <= i < rest@.len() implies #[trigger] models(rest@)[i]
                    == es.subrange(j as int + 1, n as int)[i] by {
                    assert(rest@[i] == before[i + 1]);
                    assert(models(before)[i + 1] == before[i + 1]@);
                }
                assert(models(rest@) =~= es.subrange(j as int + 1, n as int));
                let p = es.subrange(0, j as int + 1);
                assert(p.drop_last() =~= es.subrange(0, j as int));
                assert(p.last() == es[j as int]);
                lemma_retained(es.subrange(0, j as int), k, cfg, now);
                lemma_weight_prefix(es, j as int + 1);
                lemma_weight_push(es.subrange(0, j as int), es[j as int]);
                assert(es.subrange(0, j as int + 1) =~= es.subrange(0, j as int).push(es[j as int]));
            }
            let drop_key = match key {
                Some(kk) => e.key == *kk,
                None => false,
            };
            if !drop_key && self.entry_is_live(&e, now) {
                proof {
                    lemma_weight_push(models(kept@), e@);
                }
                total = total + e.value.len();
                kept.push(e);
                proof {
                    assert(models(kept@) =~= retained(es.subrange(0, j as int), k, cfg, now).push(
                        es[j as int],
                    ));
                }
            } else {
                proof {
                    assert(!keeps(es[j as int], k, cfg, now));
                    assert(models(kept@) == retained(es.subrange(0, j as int + 1), k, cfg, now));
                }
            }
            j = j + 1;
        }
        proof {
            assert(es.subrange(0, n as int) =~= es);
            lemma_retained(es, k, cfg, now);
        }
        self.entries = kept;
        self.total = total;
    }

    /// Removes the entries read longest ago until `w` more bytes fit under the
    /// capacity, or nothing is left.
    fn evict_for(&mut self, w: usize)
        requires
            old(self).wf(),
        ensures
            final(self).wf(),
            final(self)@.entries == evict(
                old(self)@.entries,
                w as nat,
                old(self)@.config.max_capacity as nat,
            ),
            final(self)@.loading == old(self)@.loading,
            final(self)@.config == old(self)@.config,
            final(self).total + w <= final(self)@.config.max_capacity || final(self)@.entries.len()
                == 0,
    {
        let cap = self.config.max_capacity;
        let ghost target = evict(self@.entries, w as nat, cap as nat);
        while !(w <= cap && self.total <= cap - w) && self.entries.len() > 0
            invariant
                self.wf(),
                self.config == old(self).config,
                self@.loading == old(self)@.loading,
                cap == self.config.max_capacity,
                evict(self@.entries, w as nat, cap as nat) == target,
            decreases self.entries.len(),
        {
            let i = self.oldest_position();
            let ghost es = self@.entries;
            proof {
                lemma_oldest(es);
                lemma_weight_remove(es, i as int);
                lemma_remove_unique(es, i as int);
            }
            let e = self.entries.remove(i);
            self.total = self.total - e.value.len();
            proof {
                assert(models(self.entries@) =~= es.remove(i as int));
                if total_weight(es.remove(i as int)) > cap {
                    assert(total_weight(es) > cap);
                }
            }
        }
    }

    /// Stores `value` under `key` at time `now`. The old entry for `key` and
    /// every expired entry leave; then the entries read longest ago leave
    /// until the new one fits, or none is left; the new entry is kept even
    /// when it alone is over the capacity.
    pub fn insert(&mut self, key: String, value: Vec<u8>, now: u64)
        requires
            old(self).wf(),
        ensures
            final(self).wf(),
            final(self)@.entries == after_insert(
                old(self)@.entries,
                key@,
                value@,
                old(self)@.config,
                now,
            ),
            final(self)@.loading == old(self)@.loading,
            final(self)@.config == old(self)@.config,
            has_key(final(self)@.entries, key@),
            final(self)@.entries[index_of(final(self)@.entries, key@)] == (EntryModel {
                key: key@,
                value: value@,
                created: now,
                last_access: now,
            }),
            value@.len() <= old(self)@.config.max_capacity ==> total_weight(final(self)@.entries)
                <= old(self)@.config.max_capacity,
    {
        let ghost es = self@.entries;
        let ghost k = key@;
        let ghost v = value@;
        self.retain_fresh(Some(&key), now);
        let w = value.len();
        self.evict_for(w);
        let ghost d = self@.entries;
        let ghost cfg = self.config;
        let e = Entry { key, value, created: now, last_access: now };
        proof {
            lemma_weight_push(d, e@);
            lemma_insert_wf(es, k, v, cfg, now);
        }
        self.total = self.total + w;
        self.entries.push(e);
        proof {
            assert(self@.entries =~= d.push(e@));
            lemma_insert_found(es, k, v, cfg, now);
        }
    }

    /// Reads the entry for `key` at time `now`. A live entry has its read time
    /// set to `now` and its bytes are returned; an expired one is removed.
    pub fn get(&mut self, key: &String, now: u64) -> (r: Option<Vec<u8>>)
        requires
            old(self).wf(),
        ensures
            final(self).wf(),
            bytes_of(r) == lookup(old(self)@.entries, key@, old(self)@.config, now),
            final(self)@.entries == after_lookup(old(self)@.entries, key@, old(self)@.config, now),
            final(self)@.loading == old(self)@.loading,
            final(self)@.config == old(self)@.config,
    {
        let ghost es = self@.entries;
        match self.find(key) {
            None => None,
            Some(i) => {
                if self.entry_is_live(&self.entries[i], now) {
                    let v = self.entries[i].value.clone();
                    let ghost old_e = es[i as int];
                    let ghost new_e = EntryModel { last_access: now, ..old_e };
                    self.entries[i].last_access = now;
                    proof {
                        assert(v@ =~= old_e.value);
                        assert(models(self.entries@) =~= es.update(i as int, new_e));
                        lemma_weight_update(es, i as int, new_e);
                        assert forall|a: int, b: int|
                            0 <= a < es.len() && 0 <= b < es.len() && a != b implies es.update(
                                i as int,
                                new_e,
                            )[a].key != es.update(i as int, new_e)[b].key by {
                            assert(es[a].key != es[b].key);
                        }
                    }
                    Some(v)
                } else {
                    proof {
                        lemma_weight_remove(es, i as int);
                        lemma_remove_unique(es, i as int);
                    }
                    let e = self.entries.remove(i);
                    self.total = self.total - e.value.len();
                    proof {
                        assert(models(self.entries@) =~= es.remove(i as int));
                        if total_weight(es.remove(i as int)) > self.config.max_capacity {
                            assert(total_weight(es) > self.config.max_capacity);
                        }
                    }
                    None
                }
            },
        }
    }

    /// Removes the entry for `key`, if there is one.
    pub fn invalidate(&mut self, key: &String)
        requires
            old(self).wf(),
        ensures
            final(self).wf(),
            final(self)@.entries == without(old(self)@.entries, key@),
            final(self)@.loading == old(self)@.loading,
            final(self)@.config == old(self)@.config,
    {
        let ghost es = self@.entries;
        if let Some(i) = self.find(key) {
            proof {
                lemma_weight_remove(es, i as int);
                lemma_remove_unique(es, i as int);
            }
            let e = self.entries.remove(i);
            self.total = self.total - e.value.len();
            proof {
                assert(models(self.entries@) =~= es.remove(i as int));
                if total_weight(es.remove(i as int)) > self.config.max_capacity {
                    assert(total_weight(es) > self.config.max_capacity);
                }
            }
        }
    }

    /// Removes every entry that has expired at time `now`.
    pub fn sweep(&mut self, now: u64)
        requires
            old(self).wf(),
        ensures
            final(self).wf(),
            final(self)@.entries == retained(old(self)@.entries, None, old(self)@.config, now),
            final(self)@.loading == old(self)@.loading,
            final(self)@.config == old(self)@.config,
    {
        self.retain_fresh(None, now);
    }
}

impl WeightedCache {
    /// Position of `key` among the loads under way, if it is there.
    fn find_loading(&self, key: &String) -> (r: Option<usize>)
        requires
            self.wf(),
        ensures
            match r {
                Some(i) => i < self@.loading.len() && self@.loading[i as int] == key@
                    && self@.loading.contains(key@) && self@.loading.index_of(key@) == i,
                None => !self@.loading.contains(key@),
            },
    {
        let ghost ls = self@.loading;
        let n = self.loading.len();
        let mut i: usize = 0;
        while i < n
            invariant
                n == self.loading@.len(),
                ls == self@.loading,
                ls.len() == n,
                loading_unique(ls),
                i <= n,
                forall|j: int| 0 <= j < i ==> ls[j] != key@,
            decreases n - i,
        {
            proof {
                assert(ls[i as int] == self.loading@[i as int]@);
            }
            if self.loading[i] == *key {
                proof {
                    assert(ls[i as int] == key@);
                    assert(ls.contains(key@));
                    let c = ls.index_of(key@);
                    assert(ls[c] == key@);
                }
                return Some(i);
            }
            i = i + 1;
        }
        proof {
            assert forall|j: int| 0 <= j < ls.len() implies ls[j] != key@ by {}
        }
        None
    }

    /// First step of a load-through read of `key` at time `now`: a hit
    /// returns the bytes; a miss on a key that nobody loads marks it as
    /// loading and tells this caller to load it; a miss on a key under load
    /// tells this caller to wait for that load. At most one load per key is
    /// ever under way.
    pub fn begin(&mut self, key: &String, now: u64) -> (r: Lookup)
        requires
            old(self).wf(),
        ensures
            final(self).wf(),
            r@ == begin_outcome(old(self)@, key@, now),
            final(self)@ == after_begin(old(self)@, key@, now),
            r is Hit || !has_key(final(self)@.entries, key@),
            r is Hit || final(self)@.loading.contains(key@),
            r is Lead <==> (!(r is Hit) && !old(self)@.loading.contains(key@)),
    {
        let ghost m = self@;
        proof {
            if lookup(m.entries, key@, m.config, now) is None {
                lemma_miss_leaves_no_entry(m.entries, key@, m.config, now);
            }
        }
        match self.get(key, now) {
            Some(v) => Lookup::Hit(v),
            None => {
                if self.find_loading(key).is_some() {
                    Lookup::Join
                } else {
                    let ghost ls = self@.loading;
                    self.loading.push(key.clone());
                    proof {
                        assert(self@.loading =~= ls.push(key@));
                        assert(self@.loading[ls.len() as int] == key@);
                        assert forall|a: int, b: int|
                            0 <= a < self@.loading.len() && 0 <= b < self@.loading.len() && a
                                != b implies self@.loading[a] != self@.loading[b] by {
                            if a == ls.len() {
                                assert(ls[b] != key@);
                            } else if b == ls.len() {
                                assert(ls[a] != key@);
                            }
                        }
                    }
                    Lookup::Lead
                }
            },
        }
    }

    /// Last step of a load-through read: the load of `key` ended with
    /// `result` at time `now`. The key is no longer under load; loaded bytes
    /// are stored as `insert` does; a failure leaves the entries as they
    /// were. The result is handed back unchanged, for every waiter.
    pub fn complete(&mut self, key: &String, result: Result<Vec<u8>, LoadError>, now: u64) -> (r:
        Result<Vec<u8>, LoadError>)
        requires
            old(self).wf(),
        ensures
            final(self).wf(),
            r == result,
            final(self)@ == after_complete(old(self)@, key@, load_of(result), now),
            !final(self)@.loading.contains(key@),
    {
        let ghost m = self@;
        if let Some(i) = self.find_loading(key) {
            let ghost ls = self@.loading;
            self.loading.remove(i);
            proof {
                assert(self@.loading =~= ls.remove(i as int));
            }
        }
        proof {
            assert(self@.loading == unmark(m.loading, key@));
            if self@.loading.contains(key@) {
                let j = choose|j: int| 0 <= j < self@.loading.len() && self@.loading[j] == key@;
                let i = m.loading.index_of(key@);
                if j < i {
                    assert(m.loading[j] == key@);
                } else {
                    assert(m.loading[j + 1] == key@);
                }
            }
        }
        match result {
            Ok(v) => {
                let c = v.clone();
                proof {
                    assert(c@ =~= v@);
                }
                self.insert(key.clone(), c, now);
                Ok(v)
            },
            Err(e) => Err(e),
        }
    }

    /// Returns the bytes of `key` at time `now`, calling `loader` once on a
    /// miss. A hit refreshes the entry's read time. Loaded bytes are stored
    /// as `insert` does; a failure is returned and nothing is stored. The
    /// exclusive borrow keeps every other caller out for the whole load.
    pub fn fetch<F: Fn(&String) -> Result<Vec<u8>, LoadError>>(
        &mut self,
        key: &String,
        now: u64,
        loader: F,
    ) -> (r: Result<Vec<u8>, LoadError>)
        requires
            old(self).wf(),
            loader.requires((key,)),
        ensures
            final(self).wf(),
            match lookup(old(self)@.entries, key@, old(self)@.config, now) {
                Some(v) => load_of(r) == Ok::<Seq<u8>, LoadError>(v),
                None => loader.ensures((key,), r),
            },
            final(self)@.entries == after_fetch(old(self)@, key@, load_of(r), now),
            final(self)@.loading == old(self)@.loading,
            final(self)@.config == old(self)@.config,
    {
        match self.get(key, now) {
            Some(v) => Ok(v),
            None => {
                let res = loader(key);
                match res {
                    Ok(v) => {
                        let c = v.clone();
                        proof {
                            assert(c@ =~= v@);
                        }
                        self.insert(key.clone(), c, now);
                        Ok(v)
                    },
                    Err(e) => Err(e),
                }
            },
        }
    }
}

} // verus!
