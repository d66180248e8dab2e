//! The MX lookup cache: memoizes resolutions per domain with a TTL, a
//! separate failure TTL, hit counting, and bounded least-recently-used
//! eviction. Expiry is checked lazily at lookup time.
use vstd::prelude::*;

use crate::records_model;
use crate::MxRecord;

verus! {

/// A resolver failure as the cache stores and surfaces it.
pub struct ResolveError {
    pub message: String,
}

/// What a resolution produced: records, or a typed failure.
pub type MxValue = Result<Vec<MxRecord>, ResolveError>;

/// The mathematical model of a stored value: record models on success,
/// the failure message on error.
pub open spec fn value_model(v: MxValue) -> Result<Seq<(u16, Seq<char>)>, Seq<char>> {
    match v {
        Ok(recs) => Ok(records_model(recs@)),
        Err(e) => Err(e.message@),
    }
}

/// One memoized resolution: the domain key (stored lowercased), the
/// outcome, when it was cached and for how long, and the bookkeeping
/// that drives eviction.
pub struct CacheEntry {
    pub domain: String,
    pub value: MxValue,
    pub cached_at: u64,
    pub ttl: u64,
    pub hits: u32,
    pub last_access: u64,
}

/// The cache itself: entries keyed by domain, plus its configuration.
pub struct MxCache {
    pub entries: Vec<CacheEntry>,
    pub cache_failures: bool,
    pub capacity: u32,
    pub success_ttl: u64,
    pub failure_ttl: u64,
}

/// Index of the entry for domain `d`, or `entries.len()` when absent.
pub open spec fn find_domain(entries: Seq<CacheEntry>, d: Seq<char>) -> int
    decreases entries.len(),
{
    if entries.len() == 0 {
        0
    } else if entries[0].domain@ == d {
        0
    } else {
        1 + find_domain(entries.skip(1), d)
    }
}

/// An entry is fresh at `now` while `now` lies before `cached_at + ttl`.
pub open spec fn entry_fresh(e: CacheEntry, now: u64) -> bool {
    (now as int) < e.cached_at + e.ttl
}

/// The cache holds an unexpired entry for `d` at time `now`.
pub open spec fn has_fresh(c: MxCache, d: Seq<char>, now: u64) -> bool {
    let i = find_domain(c.entries@, d);
    i < c.entries@.len() && entry_fresh(c.entries@[i], now)
}

/// Eviction order: `a` goes before `b` when it was accessed longer ago,
/// ties broken by fewer hits.
pub open spec fn lru_before(a: CacheEntry, b: CacheEntry) -> bool {
    a.last_access < b.last_access || (a.last_access == b.last_access && a.hits < b.hits)
}

/// Index of the entry evicted under capacity pressure: the first entry
/// minimal in eviction order.
pub open spec fn lru_index(entries: Seq<CacheEntry>) -> int
    decreases entries.len(),
{
    if entries.len() <= 1 {
        0
    } else {
        let r = lru_index(entries.drop_last());
        if lru_before(entries.last(), entries[r]) {
            entries.len() - 1
        } else {
            r
        }
    }
}

/// A hit count bump that sticks at the top instead of wrapping.
pub open spec fn bump_hits(h: u32) -> u32 {
    if h == u32::MAX {
        h
    } else {
        (h + 1) as u32
    }
}

/// The freshly stored entry for `d` with outcome model `value`: cached
/// at `now`, never yet hit, just accessed.
pub open spec fn is_new_entry(
    e: CacheEntry,
    d: Seq<char>,
    value: Result<Seq<(u16, Seq<char>)>, Seq<char>>,
    ttl: u64,
    now: u64,
) -> bool {
    &&& e.domain@ == d
    &&& value_model(e.value) == value
    &&& e.cached_at == now
    &&& e.ttl == ttl
    &&& e.hits == 0
    &&& e.last_access == now
}

/// How a cache hit for `d` at time `now` turns `pre` into `post`: the
/// hit entry's count is bumped and its access time refreshed; nothing
/// else changes.
pub open spec fn cache_touched(pre: MxCache, post: MxCache, d: Seq<char>, now: u64) -> bool {
    let i = find_domain(pre.entries@, d);
    &&& post.cache_failures == pre.cache_failures
    &&& post.capacity == pre.capacity
    &&& post.success_ttl == pre.success_ttl
    &&& post.failure_ttl == pre.failure_ttl
    &&& post.entries@ == pre.entries@.update(
        i,
        CacheEntry {
            domain: pre.entries@[i].domain,
            value: pre.entries@[i].value,
            cached_at: pre.entries@[i].cached_at,
            ttl: pre.entries@[i].ttl,
            hits: bump_hits(pre.entries@[i].hits),
            last_access: now,
        },
    )
}

/// How `store` turns `pre` into `post` for domain `d` and outcome model
/// `value` at time `now`: failures are dropped when failure caching is
/// off; a zero capacity stores nothing; an existing entry is replaced in
/// place; otherwise the entry is appended, evicting the first entry
/// minimal in eviction order when the cache is full.
pub open spec fn store_post(
    pre: MxCache,
    post: MxCache,
    d: Seq<char>,
    value: Result<Seq<(u16, Seq<char>)>, Seq<char>>,
    now: u64,
) -> bool {
    let skip_store = (value is Err && !pre.cache_failures) || pre.capacity == 0;
    let i = find_domain(pre.entries@, d);
    let n = pre.entries@.len() as int;
    let ttl = if value is Ok {
        pre.success_ttl
    } else {
        pre.failure_ttl
    };
    &&& post.cache_failures == pre.cache_failures
    &&& post.capacity == pre.capacity
    &&& post.success_ttl == pre.success_ttl
    &&& post.failure_ttl == pre.failure_ttl
    &&& skip_store ==> post.entries@ == pre.entries@
    &&& !skip_store ==> {
        if i < n {
            &&& post.entries@.len() == n
            &&& (forall|k: int| 0 <= k < n && k != i ==> post.entries@[k] == pre.entries@[k])
            &&& is_new_entry(post.entries@[i], d, value, ttl, now)
        } else if n < pre.capacity as int {
            &&& post.entries@.len() == n + 1
            &&& (forall|k: int| 0 <= k < n ==> post.entries@[k] == pre.entries@[k])
            &&& is_new_entry(post.entries@[n], d, value, ttl, now)
        } else {
            let v = lru_index(pre.entries@);
            &&& post.entries@.len() == n
            &&& (forall|k: int| 0 <= k < v ==> post.entries@[k] == pre.entries@[k])
            &&& (forall|k: int| v <= k < n - 1 ==> post.entries@[k] == pre.entries@[k + 1])
            &&& is_new_entry(post.entries@[n - 1], d, value, ttl, now)
        }
    }
}

/// `find_domain` is in bounds, lands on `d` when present, and nothing
/// before it is keyed by `d`.
pub proof fn lemma_find_domain_props(entries: Seq<CacheEntry>, d: Seq<char>)
    ensures
        0 <= find_domain(entries, d) <= entries.len(),
        find_domain(entries, d) < entries.len() ==> entries[find_domain(entries, d)].domain@ == d,
        forall|k: int| 0 <= k < find_domain(entries, d) ==> entries[k].domain@ != d,
    decreases entries.len(),
{
    if entries.len() == 0 {
    } else if entries[0].domain@ == d {
    } else {
        lemma_find_domain_props(entries.skip(1), d);
        assert forall|k: int| 0 <= k < find_domain(entries, d) implies entries[k].domain@ != d by {
            if k > 0 {
                assert(entries.skip(1)[k - 1] == entries[k]);
            }
        }
        if find_domain(entries, d) < entries.len() {
            assert(entries.skip(1)[find_domain(entries, d) - 1]
                == entries[find_domain(entries, d)]);
        }
    }
}

/// `find_domain` is the unique index keyed by `d` with no earlier one.
pub proof fn lemma_find_domain_unique(entries: Seq<CacheEntry>, d: Seq<char>, i: int)
    requires
        0 <= i < entries.len(),
        entries[i].domain@ == d,
        forall|k: int| 0 <= k < i ==> entries[k].domain@ != d,
    ensures
        find_domain(entries, d) == i,
    decreases entries.len(),
{
    if i == 0 {
    } else {
        assert(entries[0].domain@ != d);
        assert(entries.skip(1)[i - 1] == entries[i]);
        assert forall|k: int| 0 <= k < i - 1 implies entries.skip(1)[k].domain@ != d by {
            assert(entries.skip(1)[k] == entries[k + 1]);
        }
        lemma_find_domain_unique(entries.skip(1), d, i - 1);
    }
}

/// The eviction index is in bounds and minimal in eviction order.
pub proof fn lemma_lru_index_min(entries: Seq<CacheEntry>)
    requires
        entries.len() > 0,
    ensures
        0 <= lru_index(entries) < entries.len(),
        forall|k: int|
            0 <= k < entries.len() ==> !lru_before(entries[k], entries[lru_index(entries)]),
    decreases entries.len(),
{
    if entries.len() == 1 {
    } else {
        lemma_lru_index_min(entries.drop_last());
        assert forall|k: int|
            0 <= k < entries.len() implies !lru_before(
            entries[k],
            entries[lru_index(entries)],
        ) by {
            let r = lru_index(entries.drop_last());
            assert(entries.drop_last()[r] == entries[r]);
            if k < entries.len() - 1 {
                assert(entries.drop_last()[k] == entries[k]);
                assert(!lru_before(entries.drop_last()[k], entries.drop_last()[r]));
            }
        }
    }
}

/// Eviction safety: the evicted entry is least-recently-accessed — no
/// surviving entry was accessed longer ago than the one evicted.
pub proof fn lemma_eviction_least_recently_accessed(entries: Seq<CacheEntry>)
    requires
        entries.len() > 0,
    ensures
        forall|k: int|
            0 <= k < entries.len() ==> entries[lru_index(entries)].last_access <= #[trigger] entries[k].last_access,
{
    lemma_lru_index_min(entries);
    assert forall|k: int|
        0 <= k < entries.len() implies entries[lru_index(entries)].last_access
        <= #[trigger] entries[k].last_access by {
        assert(!lru_before(entries[k], entries[lru_index(entries)]));
    }
}

/// Cache correctness over time: once `store` records a successful
/// resolution for `d` at `t0`, a lookup strictly before `t0 + ttl`
/// finds a fresh entry — it is served from the cache, with no resolver
/// call — and a lookup at or after `t0 + ttl` finds none, so it must
/// resolve anew.
pub proof fn lemma_cache_ttl(
    pre: MxCache,
    post: MxCache,
    d: Seq<char>,
    value: Result<Seq<(u16, Seq<char>)>, Seq<char>>,
    t0: u64,
    t1: u64,
    t2: u64,
)
    requires
        store_post(pre, post, d, value, t0),
        value is Ok,
        pre.capacity > 0,
        (t1 as int) < t0 + pre.success_ttl,
        (t2 as int) >= t0 + pre.success_ttl,
    ensures
        has_fresh(post, d, t1),
        !has_fresh(post, d, t2),
{
    let i = find_domain(pre.entries@, d);
    let n = pre.entries@.len() as int;
    lemma_find_domain_props(pre.entries@, d);
    if i < n {
        lemma_find_domain_unique(post.entries@, d, i);
    } else if n < pre.capacity as int {
        lemma_find_domain_unique(post.entries@, d, n);
    } else {
        let v = lru_index(pre.entries@);
        lemma_lru_index_min(pre.entries@);
        assert forall|k: int| 0 <= k < n - 1 implies post.entries@[k].domain@ != d by {
            if k < v {
                assert(post.entries@[k] == pre.entries@[k]);
            } else {
                assert(post.entries@[k] == pre.entries@[k + 1]);
            }
        }
        lemma_find_domain_unique(post.entries@, d, n - 1);
    }
}

fn find_entry(entries: &Vec<CacheEntry>, d: &String) -> (i: usize)
    ensures
        i as int == find_domain(entries@, d@),
{
    let mut i: usize = 0;
    while i < entries.len()
        invariant
            i <= entries@.len(),
            forall|k: int| 0 <= k < i ==> entries@[k].domain@ != d@,
        decreases entries@.len() - i,
    {
        if entries[i].domain == *d {
            proof {
                lemma_find_domain_unique(entries@, d@, i as int);
            }
            return i;
        }
        i += 1;
    }
    proof {
        lemma_find_domain_props(entries@, d@);
        if find_domain(entries@, d@) < entries@.len() {
            assert(entries@[find_domain(entries@, d@)].domain@ != d@);
        }
    }
    i
}

fn find_lru(entries: &Vec<CacheEntry>) -> (r: usize)
    requires
        entries@.len() > 0,
    ensures
        r as int == lru_index(entries@),
{
    let mut best: usize = 0;
    let mut k: usize = 1;
    while k < entries.len()
        invariant
            1 <= k <= entries@.len(),
            best < k,
            best as int == lru_index(entries@.take(k as int)),
        decreases entries@.len() - k,
    {
        let cand = &entries[k];
        let cur = &entries[best];
        let earlier = cand.last_access < cur.last_access || (cand.last_access == cur.last_access
            && cand.hits < cur.hits);
        proof {
            crate::text::lemma_take_succ(entries@, k as int);
            assert(entries@.take(k as int + 1).drop_last() =~= entries@.take(k as int));
            assert(entries@.take(k as int + 1).last() == entries@[k as int]);
            assert(entries@.take(k as int)[best as int] == entries@[best as int]);
        }
        if earlier {
            best = k;
        }
        k += 1;
    }
    proof {
        assert(entries@.take(entries@.len() as int) =~= entries@);
    }
    best
}

/// A copy of a record list with the same model.
fn dup_records(v: &Vec<MxRecord>) -> (r: Vec<MxRecord>)
    ensures
        r@ == v@,
{
    let mut r: Vec<MxRecord> = Vec::new();
    let mut i: usize = 0;
    while i < v.len()
        invariant
            i <= v@.len(),
            r@ == v@.take(i as int),
        decreases v@.len() - i,
    {
        proof {
            crate::text::lemma_take_succ(v@, i as int);
        }
        let rec = &v[i];
        r.push((rec.0, rec.1.clone()));
        i += 1;
    }
    proof {
        assert(v@.take(v@.len() as int) =~= v@);
    }
    r
}

/// A copy of a stored value with the same model.
pub(crate) fn dup_value(v: &MxValue) -> (r: MxValue)
    ensures
        value_model(r) == value_model(*v),
{
    match v {
        Ok(recs) => Ok(dup_records(recs)),
        Err(e) => Err(ResolveError { message: e.message.clone() }),
    }
}

impl MxCache {
    /// An empty cache with the given configuration.
    pub fn new(capacity: u32, success_ttl: u64, failure_ttl: u64, cache_failures: bool) -> (c:
        MxCache)
        ensures
            c.entries@.len() == 0,
            c.capacity == capacity,
            c.success_ttl == success_ttl,
            c.failure_ttl == failure_ttl,
            c.cache_failures == cache_failures,
    {
        MxCache { entries: Vec::new(), cache_failures, capacity, success_ttl, failure_ttl }
    }

    /// Cache lookup for an already-lowercased domain: a stored,
    /// unexpired entry is served — its hit count bumped and its access
    /// time refreshed — and an absent or expired entry leaves the cache
    /// untouched and yields nothing.
    pub fn get(&mut self, domain: &String, now: u64) -> (r: Option<MxValue>)
        ensures
            !has_fresh(*old(self), domain@, now) ==> r is None && *final(self) == *old(self),
            has_fresh(*old(self), domain@, now) ==> ({
                let i = find_domain(old(self).entries@, domain@);
                &&& r matches Some(v) && value_model(v) == value_model(
                    old(self).entries@[i].value,
                )
                &&& cache_touched(*old(self), *final(self), domain@, now)
            }),
    {
        let i = find_entry(&self.entries, domain);
        if i < self.entries.len() {
            let fresh = match self.entries[i].cached_at.checked_add(self.entries[i].ttl) {
                Some(expiry) => now < expiry,
                None => true,
            };
            if fresh {
                let mut e = self.entries.remove(i);
                let out = dup_value(&e.value);
                e.hits = if e.hits == u32::MAX {
                    e.hits
                } else {
                    e.hits + 1
                };
                e.last_access = now;
                self.entries.insert(i, e);
                proof {
                    assert(self.entries@ =~= old(self).entries@.update(
                        i as int,
                        self.entries@[i as int],
                    ));
                }
                return Some(out);
            }
        }
        None
    }

    /// Records the outcome of a fresh resolution for an
    /// already-lowercased domain, as `store_post` states.
    pub fn store(&mut self, domain: String, value: MxValue, now: u64)
        ensures
            store_post(*old(self), *final(self), domain@, value_model(value), now),
    {
        if value.is_err() && !self.cache_failures {
            return ;
        }
        if self.capacity == 0 {
            return ;
        }
        let ttl = if value.is_ok() {
            self.success_ttl
        } else {
            self.failure_ttl
        };
        let i = find_entry(&self.entries, &domain);
        let entry = CacheEntry { domain, value, cached_at: now, ttl, hits: 0, last_access: now };
        if i < self.entries.len() {
            self.entries.remove(i);
            self.entries.insert(i, entry);
            proof {
                assert forall|k: int|
                    0 <= k < old(self).entries@.len() && k != i as int implies self.entries@[k]
                    == old(self).entries@[k] by {
                    assert(self.entries@ =~= old(self).entries@.remove(i as int).insert(
                        i as int,
                        self.entries@[i as int],
                    ));
                }
            }
        } else if self.entries.len() < (self.capacity as usize) {
            self.entries.push(entry);
        } else {
            let v = find_lru(&self.entries);
            proof {
                lemma_lru_index_min(self.entries@);
            }
            self.entries.remove(v);
            self.entries.push(entry);
        }
    }
}

} // verus!
