//! The hot cache: a bounded associative store with a per-entry time-to-live
//! and half that as time-to-idle, used as a first-tier memoization layer for
//! recently computed analytics.
//!
//! The store itself is moka's synchronous cache. Its contents are modelled
//! as a map that inserts grow and that eviction, expiry and removal only
//! ever shrink: a lookup that returns a value returns the value most
//! recently inserted for that key. The configured capacity, time-to-live
//! and time-to-idle are carried on the model, and once housekeeping has
//! settled the pending work, the reported entry count respects the
//! capacity.

use vstd::prelude::*;

use std::time::Duration;

use moka::sync::Cache;

verus! {

/// moka refuses expirations beyond a thousand years; staying under this cap
/// keeps construction panic-free.
pub const MAX_TTL_SECONDS: u64 = 31_536_000_000;

#[verifier::external_type_specification]
#[verifier::external_body]
#[verifier::reject_recursive_types(K)]
#[verifier::reject_recursive_types(V)]
#[verifier::reject_recursive_types(S)]
pub struct ExMokaCache<K, V, S>(Cache<K, V, S>);

/// The concrete store: byte payloads keyed by strings under the default
/// hasher.
pub type AnalyticsCache = Cache<String, Vec<u8>, std::hash::RandomState>;

/// The type cache contents are modelled as.
pub type EntryMap = Map<Seq<char>, Seq<u8>>;

/// The entries resting in the cache: every key that was inserted and has
/// not yet been removed, evicted or expired, with its last inserted value.
pub uninterp spec fn cache_entries(c: AnalyticsCache) -> EntryMap;

/// The entry-count bound the cache was built with.
pub uninterp spec fn cache_capacity(c: AnalyticsCache) -> u64;

/// The per-entry time-to-live, in seconds, the cache was built with.
pub uninterp spec fn cache_ttl(c: AnalyticsCache) -> u64;

/// The per-entry time-to-idle, in seconds, the cache was built with.
pub uninterp spec fn cache_tti(c: AnalyticsCache) -> u64;

/// Housekeeping has applied all pending reads, writes and evictions, so the
/// cache's counters reflect its entries and eviction has enforced the
/// capacity. Construction and `run_pending_tasks` leave the cache settled;
/// other operations may queue new pending work.
pub uninterp spec fn cache_settled(c: AnalyticsCache) -> bool;

/// Relies on moka::sync::CacheBuilder: a fresh, empty, settled cache with
/// the given capacity bound, time-to-live and time-to-idle.
#[verifier::external_body]
fn cache_new(max_capacity: u64, ttl_seconds: u64, tti_seconds: u64) -> (r: AnalyticsCache)
    requires
        ttl_seconds <= MAX_TTL_SECONDS,
        tti_seconds <= MAX_TTL_SECONDS,
    ensures
        cache_entries(r) == EntryMap::empty(),
        cache_capacity(r) == max_capacity,
        cache_ttl(r) == ttl_seconds,
        cache_tti(r) == tti_seconds,
        cache_settled(r),
{
    Cache::builder().max_capacity(max_capacity).time_to_live(Duration::from_secs(ttl_seconds)).time_to_idle(
        Duration::from_secs(tti_seconds),
    ).build()
}

/// Relies on moka::sync::Cache::insert: the entry for this key becomes the
/// given value; the policy may evict entries, so the contents afterwards
/// hold at most this entry and survivors of the old contents. The
/// configuration never changes.
#[verifier::external_body]
fn cache_insert(c: &mut AnalyticsCache, key: String, value: Vec<u8>)
    ensures
        forall|k: Seq<char>|
            #[trigger] cache_entries(*final(c)).dom().contains(k) ==> if k == key@ {
                cache_entries(*final(c))[k] == value@
            } else {
                cache_entries(*old(c)).dom().contains(k) && cache_entries(*final(c))[k]
                    == cache_entries(*old(c))[k]
            },
        cache_capacity(*final(c)) == cache_capacity(*old(c)),
        cache_ttl(*final(c)) == cache_ttl(*old(c)),
        cache_tti(*final(c)) == cache_tti(*old(c)),
{
    c.insert(key, value);
}

/// Relies on moka::sync::Cache::get: a hit returns the value most recently
/// inserted for the key; the access may expire idle entries but adds none.
#[verifier::external_body]
fn cache_get(c: &mut AnalyticsCache, key: &str) -> (r: Option<Vec<u8>>)
    ensures
        r matches Some(v) ==> cache_entries(*old(c)).dom().contains(key@) && cache_entries(*old(c))[key@]
            == v@,
        forall|k: Seq<char>|
            #[trigger] cache_entries(*final(c)).dom().contains(k) ==> cache_entries(*old(c)).dom().contains(k)
                && cache_entries(*final(c))[k] == cache_entries(*old(c))[k],
        cache_capacity(*final(c)) == cache_capacity(*old(c)),
        cache_ttl(*final(c)) == cache_ttl(*old(c)),
        cache_tti(*final(c)) == cache_tti(*old(c)),
{
    c.get(key)
}

/// Relies on moka::sync::Cache::invalidate: the key's entry is discarded
/// and no entry is added.
#[verifier::external_body]
fn cache_remove(c: &mut AnalyticsCache, key: &str)
    ensures
        !cache_entries(*final(c)).dom().contains(key@),
        forall|k: Seq<char>|
            #[trigger] cache_entries(*final(c)).dom().contains(k) ==> cache_entries(*old(c)).dom().contains(k)
                && cache_entries(*final(c))[k] == cache_entries(*old(c))[k],
        cache_capacity(*final(c)) == cache_capacity(*old(c)),
        cache_ttl(*final(c)) == cache_ttl(*old(c)),
        cache_tti(*final(c)) == cache_tti(*old(c)),
{
    c.invalidate(key);
}

/// Relies on moka::sync::Cache::run_pending_tasks: housekeeping applies all
/// pending reads, writes and evictions — its maintenance loop keeps
/// evicting while the weighted size exceeds the capacity — and adds no
/// entry. The cache is settled afterwards.
#[verifier::external_body]
fn cache_maintain(c: &mut AnalyticsCache)
    ensures
        forall|k: Seq<char>|
            #[trigger] cache_entries(*final(c)).dom().contains(k) ==> cache_entries(*old(c)).dom().contains(k)
                && cache_entries(*final(c))[k] == cache_entries(*old(c))[k],
        cache_capacity(*final(c)) == cache_capacity(*old(c)),
        cache_ttl(*final(c)) == cache_ttl(*old(c)),
        cache_tti(*final(c)) == cache_tti(*old(c)),
        cache_settled(*final(c)),
{
    c.run_pending_tasks();
}

/// Relies on moka::sync::Cache::entry_count: an estimate that is exact once
/// pending tasks have run, by moka's own documentation. On a settled cache
/// eviction has enforced the capacity, so the count respects it, and a
/// settled cache with empty contents counts zero entries.
#[verifier::external_body]
fn cache_entry_count(c: &AnalyticsCache) -> (r: u64)
    ensures
        cache_settled(*c) ==> r <= cache_capacity(*c),
        cache_settled(*c) && cache_entries(*c) == EntryMap::empty() ==> r == 0,
{
    c.entry_count()
}

/// Relies on moka::sync::Cache::weighted_size: an estimate that is exact
/// once pending tasks have run; a settled cache with empty contents weighs
/// nothing.
#[verifier::external_body]
fn cache_weighted_size(c: &AnalyticsCache) -> (r: u64)
    ensures
        cache_settled(*c) && cache_entries(*c) == EntryMap::empty() ==> r == 0,
{
    c.weighted_size()
}

/// A first-tier cache for computed analytics: byte payloads keyed by
/// strings, bounded in entry count, expiring after the time-to-live since
/// insert or half of it since the last access.
pub struct L1Cache {
    cache: AnalyticsCache,
}

impl L1Cache {
    /// The entries resting in the cache.
    pub closed spec fn entries(&self) -> EntryMap {
        cache_entries(self.cache)
    }

    /// The entry-count bound this cache was built with.
    pub closed spec fn capacity(&self) -> u64 {
        cache_capacity(self.cache)
    }

    /// The per-entry time-to-live, in seconds.
    pub closed spec fn ttl_seconds(&self) -> u64 {
        cache_ttl(self.cache)
    }

    /// The per-entry time-to-idle, in seconds.
    pub closed spec fn tti_seconds(&self) -> u64 {
        cache_tti(self.cache)
    }

    /// Housekeeping has settled all pending work.
    pub closed spec fn settled(&self) -> bool {
        cache_settled(self.cache)
    }

    /// A fresh empty cache holding at most `max_capacity` entries, each for
    /// at most `ttl_seconds` since insertion and half that since its last
    /// access.
    pub fn new(max_capacity: u64, ttl_seconds: u64) -> (r: Self)
        requires
            ttl_seconds <= MAX_TTL_SECONDS,
        ensures
            r.entries() == EntryMap::empty(),
            r.capacity() == max_capacity,
            r.ttl_seconds() == ttl_seconds,
            r.tti_seconds() == ttl_seconds / 2,
            r.settled(),
    {
        let tti_seconds = ttl_seconds / 2;
        L1Cache { cache: cache_new(max_capacity, ttl_seconds, tti_seconds) }
    }

    /// Stores a value under a key: afterwards the key holds at most this
    /// value, every other surviving entry is unchanged, and nothing else
    /// appears.
    pub fn insert(&mut self, key: String, value: Vec<u8>)
        ensures
            forall|k: Seq<char>|
                #[trigger] final(self).entries().dom().contains(k) ==> if k == key@ {
                    final(self).entries()[k] == value@
                } else {
                    old(self).entries().dom().contains(k) && final(self).entries()[k] == old(
                        self,
                    ).entries()[k]
                },
            final(self).capacity() == old(self).capacity(),
            final(self).ttl_seconds() == old(self).ttl_seconds(),
            final(self).tti_seconds() == old(self).tti_seconds(),
    {
        cache_insert(&mut self.cache, key, value);
        proof {
            assert forall|k: Seq<char>| self.entries().dom().contains(k) implies (if k == key@ {
                self.entries()[k] == value@
            } else {
                old(self).entries().dom().contains(k) && self.entries()[k] == old(self).entries()[k]
            }) by {
                assert(cache_entries(self.cache).dom().contains(k));
            }
        }
    }

    /// Looks a key up: a hit is exactly the value most recently inserted
    /// for that key; a miss means the entry expired, was evicted, was
    /// removed, or never existed.
    pub fn get(&mut self, key: &str) -> (r: Option<Vec<u8>>)
        ensures
            r matches Some(v) ==> old(self).entries().dom().contains(key@) && old(
                self,
            ).entries()[key@] == v@,
            forall|k: Seq<char>|
                #[trigger] final(self).entries().dom().contains(k) ==> old(self).entries().dom().contains(k)
                    && final(self).entries()[k] == old(self).entries()[k],
            final(self).capacity() == old(self).capacity(),
            final(self).ttl_seconds() == old(self).ttl_seconds(),
            final(self).tti_seconds() == old(self).tti_seconds(),
    {
        let r = cache_get(&mut self.cache, key);
        proof {
            assert forall|k: Seq<char>| self.entries().dom().contains(k) implies old(
                self,
            ).entries().dom().contains(k) && self.entries()[k] == old(self).entries()[k] by {
                assert(cache_entries(self.cache).dom().contains(k));
            }
        }
        r
    }

    /// Discards the key's entry; no other entry changes and none appears.
    pub fn remove(&mut self, key: &str)
        ensures
            !final(self).entries().dom().contains(key@),
            forall|k: Seq<char>|
                #[trigger] final(self).entries().dom().contains(k) ==> old(self).entries().dom().contains(k)
                    && final(self).entries()[k] == old(self).entries()[k],
            final(self).capacity() == old(self).capacity(),
            final(self).ttl_seconds() == old(self).ttl_seconds(),
            final(self).tti_seconds() == old(self).tti_seconds(),
    {
        cache_remove(&mut self.cache, key);
        proof {
            assert forall|k: Seq<char>| self.entries().dom().contains(k) implies old(
                self,
            ).entries().dom().contains(k) && self.entries()[k] == old(self).entries()[k] by {
                assert(cache_entries(self.cache).dom().contains(k));
            }
        }
    }

    /// Applies pending housekeeping — reads, writes and evictions — so the
    /// statistics settle; entries can only disappear.
    pub fn run_pending_tasks(&mut self)
        ensures
            forall|k: Seq<char>|
                #[trigger] final(self).entries().dom().contains(k) ==> old(self).entries().dom().contains(k)
                    && final(self).entries()[k] == old(self).entries()[k],
            final(self).capacity() == old(self).capacity(),
            final(self).ttl_seconds() == old(self).ttl_seconds(),
            final(self).tti_seconds() == old(self).tti_seconds(),
            final(self).settled(),
    {
        cache_maintain(&mut self.cache);
        proof {
            assert forall|k: Seq<char>| self.entries().dom().contains(k) implies old(
                self,
            ).entries().dom().contains(k) && self.entries()[k] == old(self).entries()[k] by {
                assert(cache_entries(self.cache).dom().contains(k));
            }
        }
    }

    /// The cache's (entry count, weighted size) estimate. Once housekeeping
    /// has settled — after construction or `run_pending_tasks` — the entry
    /// count respects the configured capacity, and an empty settled cache
    /// reports (0, 0).
    pub fn stats(&self) -> (r: (u64, u64))
        ensures
            self.settled() ==> r.0 <= self.capacity(),
            self.settled() && self.entries() == EntryMap::empty() ==> r.0 == 0 && r.1 == 0,
    {
        (cache_entry_count(&self.cache), cache_weighted_size(&self.cache))
    }
}

} // verus!
