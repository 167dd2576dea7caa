//! The per-path MTU (PMTU) cache.
//!
//! One cache instance serves one address family. Updates never lower a
//! path's recorded MTU below the family's minimum, plateau descent picks the
//! greatest canonical MTU below a given bound, and a singleton maintenance
//! timer evicts entries that have not been refreshed for three hours.

use vstd::prelude::*;

use crate::assoc::{assoc_map, lemma_assoc_map_dom, lemma_assoc_map_index, lemma_assoc_map_push,
    lemma_assoc_map_update, unique_keys};
use crate::ip::{IpAddr, IpVersion};
use crate::time::Instant;
use crate::timer::{TimerId, TimerSchedule};

verus! {

/// The minimum MTU an IPv4 path may have (RFC 791 section 3.2).
pub const IPV4_MIN_MTU: u32 = 68;

/// The minimum MTU an IPv6 link may have (RFC 8200 section 5).
pub const IPV6_MIN_MTU: u32 = 1280;

/// Time between PMTU maintenance sweeps: one hour.
pub const MAINTENANCE_PERIOD_MS: u64 = 3600000;

/// Age at which a PMTU record counts as stale: three hours.
pub const PMTU_STALE_TIMEOUT_MS: u64 = 10800000;

/// The minimum MTU of an address family.
pub open spec fn min_mtu_spec(version: IpVersion) -> u32 {
    match version {
        IpVersion::V4 => IPV4_MIN_MTU,
        IpVersion::V6 => IPV6_MIN_MTU,
    }
}

/// Get the minimum MTU size for a specific IP version.
pub fn min_mtu(version: IpVersion) -> (r: u32)
    ensures
        r == min_mtu_spec(version),
{
    match version {
        IpVersion::V4 => IPV4_MIN_MTU,
        IpVersion::V6 => IPV6_MIN_MTU,
    }
}

/// The common MTU plateau values of RFC 1191 section 7.1, with 1280 (the
/// IPv6 minimum) added.
pub open spec fn is_plateau(v: u32) -> bool {
    ||| v == 65535
    ||| v == 32000
    ||| v == 17914
    ||| v == 8166
    ||| v == 4352
    ||| v == 2002
    ||| v == 1492
    ||| v == 1280
    ||| v == 1006
    ||| v == 508
    ||| v == 296
    ||| v == 68
}

/// Get the next lower PMTU plateau value, if one exists: the greatest
/// plateau strictly below `start_mtu`.
pub fn next_lower_pmtu_plateau(start_mtu: u32) -> (r: Option<u32>)
    ensures
        match r {
            Some(v) => is_plateau(v) && v < start_mtu && (forall|p: u32|
                is_plateau(p) && p < start_mtu ==> p <= v),
            None => forall|p: u32| is_plateau(p) ==> p >= start_mtu,
        },
        r is Some <==> start_mtu > 68,
{
    if 65535 < start_mtu {
        Some(65535)
    } else if 32000 < start_mtu {
        Some(32000)
    } else if 17914 < start_mtu {
        Some(17914)
    } else if 8166 < start_mtu {
        Some(8166)
    } else if 4352 < start_mtu {
        Some(4352)
    } else if 2002 < start_mtu {
        Some(2002)
    } else if 1492 < start_mtu {
        Some(1492)
    } else if 1280 < start_mtu {
        Some(1280)
    } else if 1006 < start_mtu {
        Some(1006)
    } else if 508 < start_mtu {
        Some(508)
    } else if 296 < start_mtu {
        Some(296)
    } else if 68 < start_mtu {
        Some(68)
    } else {
        None
    }
}

/// Identifies a path: the (local) source and (remote) destination address,
/// each widened to 128 bits. One cache never mixes families.
#[derive(Clone, Copy, Debug, PartialEq, Eq, Structural)]
pub struct PathMtuCacheKey(pub u128, pub u128);

impl PathMtuCacheKey {
    pub fn new(src_ip: IpAddr, dst_ip: IpAddr) -> (r: PathMtuCacheKey)
        ensures
            r == PathMtuCacheKey(src_ip.bits_spec(), dst_ip.bits_spec()),
    {
        PathMtuCacheKey(src_ip.bits(), dst_ip.bits())
    }
}

/// One path's record: the PMTU estimate and when it was last updated.
#[derive(Clone, Copy, Debug, PartialEq, Eq, Structural)]
pub struct PathMtuCacheData {
    pub pmtu: u32,
    pub last_updated: Instant,
}

impl PathMtuCacheData {
    /// Construct a new record, last updated `now`.
    pub fn new(pmtu: u32, now: Instant) -> (r: PathMtuCacheData)
        ensures
            r.pmtu == pmtu,
            r.last_updated == now,
    {
        PathMtuCacheData { pmtu, last_updated: now }
    }
}

/// The PMTU a map records for a key, if any.
pub open spec fn pmtu_lookup(m: Map<PathMtuCacheKey, PathMtuCacheData>, k: PathMtuCacheKey) -> Option<
    u32,
> {
    if m.contains_key(k) {
        Some(m[k].pmtu)
    } else {
        None
    }
}

/// Whether a record is still fresh at `now` (younger than the stale
/// timeout). A record stamped in the future counts as fresh.
pub open spec fn pmtu_entry_fresh(d: PathMtuCacheData, now: Instant) -> bool {
    now.millis < d.last_updated.millis + PMTU_STALE_TIMEOUT_MS
}

/// The freshness test as a predicate on stored pairs.
pub open spec fn fresh_pred(now: Instant) -> spec_fn((PathMtuCacheKey, PathMtuCacheData)) -> bool {
    |p: (PathMtuCacheKey, PathMtuCacheData)| pmtu_entry_fresh(p.1, now)
}

/// Keeping only the fresh pairs of an association list restricts its map to
/// the fresh records.
proof fn lemma_sweep_map(s: Seq<(PathMtuCacheKey, PathMtuCacheData)>, now: Instant)
    requires
        unique_keys(s),
    ensures
        unique_keys(s.filter(fresh_pred(now))),
        assoc_map(s.filter(fresh_pred(now))) == Map::new(
            |k: PathMtuCacheKey| assoc_map(s).contains_key(k) && pmtu_entry_fresh(
                assoc_map(s)[k],
                now,
            ),
            |k: PathMtuCacheKey| assoc_map(s)[k],
        ),
    decreases s.len(),
{
    reveal(Seq::filter);
    let pred = fresh_pred(now);
    let target = Map::new(
        |k: PathMtuCacheKey| assoc_map(s).contains_key(k) && pmtu_entry_fresh(assoc_map(s)[k], now),
        |k: PathMtuCacheKey| assoc_map(s)[k],
    );
    if s.len() == 0 {
        assert(assoc_map(s.filter(pred)) =~= target);
    } else {
        let t = s.drop_last();
        let last = s.last();
        assert forall|a: int, b: int| 0 <= a < b < t.len() implies (#[trigger] t[a]).0 != (
        #[trigger] t[b]).0 by {
            assert(s[a].0 != s[b].0);
        }
        lemma_sweep_map(t, now);
        let sub_target = Map::new(
            |k: PathMtuCacheKey| assoc_map(t).contains_key(k) && pmtu_entry_fresh(
                assoc_map(t)[k],
                now,
            ),
            |k: PathMtuCacheKey| assoc_map(t)[k],
        );
        lemma_assoc_map_dom(t, last.0);
        assert forall|j: int| 0 <= j < t.len() implies (#[trigger] t[j]).0 != last.0 by {
            assert(s[j].0 != s[s.len() - 1].0);
        }
        assert(!assoc_map(t).contains_key(last.0));
        if pred(last) {
            assert(s.filter(pred) == t.filter(pred).push(last));
            // The appended key is new to the filtered prefix.
            assert forall|m: int| 0 <= m < t.filter(pred).len() implies (#[trigger] t.filter(
                pred,
            )[m]).0 != last.0 by {
                lemma_assoc_map_index(t.filter(pred), m);
                assert(sub_target.contains_key(t.filter(pred)[m].0));
            }
            lemma_assoc_map_push(t.filter(pred), last.0, last.1);
            assert(assoc_map(s.filter(pred)) =~= target);
        } else {
            assert(s.filter(pred) == t.filter(pred));
            assert(assoc_map(s.filter(pred)) =~= target);
        }
    }
}

/// One address family's PMTU cache.
pub struct IpLayerPathMtuCache {
    /// Which family this cache serves.
    pub version: IpVersion,
    /// Per-path records, with pairwise-distinct keys.
    pub cache: Vec<(PathMtuCacheKey, PathMtuCacheData)>,
    /// Whether this cache believes its maintenance timer is pending.
    pub timer_scheduled: bool,
}

impl View for IpLayerPathMtuCache {
    type V = Map<PathMtuCacheKey, PathMtuCacheData>;

    open spec fn view(&self) -> Map<PathMtuCacheKey, PathMtuCacheData> {
        assoc_map(self.cache@)
    }
}

impl IpLayerPathMtuCache {
    /// Keys are distinct; every recorded PMTU respects the family minimum;
    /// a non-empty cache has its maintenance timer pending.
    pub open spec fn wf(&self) -> bool {
        &&& unique_keys(self.cache@)
        &&& forall|i: int|
            0 <= i < self.cache@.len() ==> (#[trigger] self.cache@[i]).1.pmtu >= min_mtu_spec(
                self.version,
            )
        &&& self.cache@.len() > 0 ==> self.timer_scheduled
    }

    /// This cache's timer id.
    pub open spec fn timer_id(&self) -> TimerId {
        TimerId::PmtuMaintenance(self.version)
    }

    /// The maintenance timer is pending in `sched` exactly when this cache
    /// believes it is.
    pub open spec fn timer_sync(&self, sched: Map<TimerId, Instant>) -> bool {
        self.timer_scheduled <==> sched.contains_key(self.timer_id())
    }

    /// Create a new, empty cache for one family.
    pub fn new(version: IpVersion) -> (r: IpLayerPathMtuCache)
        ensures
            r.wf(),
            r.version == version,
            r@ == Map::<PathMtuCacheKey, PathMtuCacheData>::empty(),
            !r.timer_scheduled,
    {
        IpLayerPathMtuCache { version, cache: Vec::new(), timer_scheduled: false }
    }

    /// Index of `key` in the backing vector, if recorded.
    fn find_index(&self, key: PathMtuCacheKey) -> (r: Option<usize>)
        ensures
            match r {
                Some(i) => i < self.cache@.len() && self.cache@[i as int].0 == key,
                None => forall|i: int|
                    0 <= i < self.cache@.len() ==> (#[trigger] self.cache@[i]).0 != key,
            },
    {
        let mut i: usize = 0;
        while i < self.cache.len()
            invariant
                i <= self.cache@.len(),
                forall|j: int| 0 <= j < i ==> (#[trigger] self.cache@[j]).0 != key,
            decreases self.cache@.len() - i,
        {
            if self.cache[i].0 == key {
                return Some(i);
            }
            i = i + 1;
        }
        None
    }

    /// Get the PMTU between `src_ip` and `dst_ip`, if one is recorded.
    pub fn get_pmtu(&self, src_ip: IpAddr, dst_ip: IpAddr) -> (r: Option<u32>)
        requires
            self.wf(),
        ensures
            r == pmtu_lookup(self@, PathMtuCacheKey(src_ip.bits_spec(), dst_ip.bits_spec())),
    {
        let key = PathMtuCacheKey::new(src_ip, dst_ip);
        proof {
            lemma_assoc_map_dom(self.cache@, key);
        }
        match self.find_index(key) {
            Some(i) => {
                proof {
                    lemma_assoc_map_index(self.cache@, i as int);
                }
                Some(self.cache[i].1.pmtu)
            },
            None => None,
        }
    }

    /// Get the instant at which the record for `src_ip`, `dst_ip` was last
    /// updated, if one is recorded.
    pub fn get_last_updated(&self, src_ip: IpAddr, dst_ip: IpAddr) -> (r: Option<Instant>)
        requires
            self.wf(),
        ensures
            ({
                let k = PathMtuCacheKey(src_ip.bits_spec(), dst_ip.bits_spec());
                r == (if self@.contains_key(k) {
                    Some(self@[k].last_updated)
                } else {
                    None::<Instant>
                })
            }),
    {
        let key = PathMtuCacheKey::new(src_ip, dst_ip);
        proof {
            lemma_assoc_map_dom(self.cache@, key);
        }
        match self.find_index(key) {
            Some(i) => {
                proof {
                    lemma_assoc_map_index(self.cache@, i as int);
                }
                Some(self.cache[i].1.last_updated)
            },
            None => None,
        }
    }

    /// Set the PMTU between `src_ip` and `dst_ip` to `new_mtu`, stamping
    /// the record with `now`.
    ///
    /// Returns `Err` with the unchanged prior estimate exactly when
    /// `new_mtu` is below the family minimum; otherwise returns `Ok` with
    /// the prior estimate (`None` on first insertion) and makes sure a
    /// maintenance timer is pending.
    pub fn update_pmtu_inner(
        &mut self,
        sched: &mut TimerSchedule,
        now: Instant,
        src_ip: IpAddr,
        dst_ip: IpAddr,
        new_mtu: u32,
    ) -> (r: Result<Option<u32>, Option<u32>>)
        requires
            old(self).wf(),
            old(sched).wf(),
            old(self).timer_sync(old(sched)@),
            now.millis + MAINTENANCE_PERIOD_MS <= u64::MAX,
        ensures
            final(self).wf(),
            final(sched).wf(),
            final(self).timer_sync(final(sched)@),
            final(self).version == old(self).version,
            ({
                let key = PathMtuCacheKey(src_ip.bits_spec(), dst_ip.bits_spec());
                let prior = pmtu_lookup(old(self)@, key);
                if new_mtu < min_mtu_spec(old(self).version) {
                    &&& r == Err::<Option<u32>, Option<u32>>(prior)
                    &&& final(self)@ == old(self)@
                    &&& final(self).timer_scheduled == old(self).timer_scheduled
                    &&& final(sched)@ == old(sched)@
                } else {
                    &&& r == Ok::<Option<u32>, Option<u32>>(prior)
                    &&& final(self)@ == old(self)@.insert(
                        key,
                        (PathMtuCacheData { pmtu: new_mtu, last_updated: now }),
                    )
                    &&& final(self).timer_scheduled
                    &&& final(sched)@ == (if old(self).timer_scheduled {
                        old(sched)@
                    } else {
                        old(sched)@.insert(
                            old(self).timer_id(),
                            (Instant { millis: (now.millis + MAINTENANCE_PERIOD_MS) as u64 }),
                        )
                    })
                }
            }),
    {
        let key = PathMtuCacheKey::new(src_ip, dst_ip);
        proof {
            lemma_assoc_map_dom(self.cache@, key);
        }

        // New MTU must not be smaller than the minimum MTU for the family.
        if new_mtu < min_mtu(self.version) {
            let prior = self.get_pmtu(src_ip, dst_ip);
            return Err(prior);
        }

        let data = PathMtuCacheData::new(new_mtu, now);
        let ret = match self.find_index(key) {
            Some(i) => {
                proof {
                    lemma_assoc_map_index(self.cache@, i as int);
                    lemma_assoc_map_update(self.cache@, i as int, data);
                }
                let prev = self.cache[i].1.pmtu;
                self.cache.set(i, (key, data));
                Ok(Some(prev))
            },
            None => {
                proof {
                    lemma_assoc_map_push(self.cache@, key, data);
                }
                self.cache.push((key, data));
                Ok(None)
            },
        };

        // Make sure a maintenance sweep is pending. Never reschedule one
        // that already is: the timer is a singleton.
        if !self.timer_scheduled {
            self.create_maintenance_timer(sched, now);
        }

        ret
    }

    /// Arrange the next maintenance sweep, one period from `now`.
    fn create_maintenance_timer(&mut self, sched: &mut TimerSchedule, now: Instant)
        requires
            old(sched).wf(),
            !old(self).timer_scheduled,
            old(self).timer_sync(old(sched)@),
            now.millis + MAINTENANCE_PERIOD_MS <= u64::MAX,
        ensures
            final(sched).wf(),
            final(self).timer_scheduled,
            final(self).timer_sync(final(sched)@),
            final(self).version == old(self).version,
            final(self).cache == old(self).cache,
            final(sched)@ == old(sched)@.insert(
                old(self).timer_id(),
                (Instant { millis: (now.millis + MAINTENANCE_PERIOD_MS) as u64 }),
            ),
    {
        self.timer_scheduled = true;
        let prior = sched.schedule_timer(now, MAINTENANCE_PERIOD_MS, TimerId::PmtuMaintenance(self.version));
        // The timer is a singleton: nothing may already be pending here.
        assert(prior is None);
    }

    /// Run one maintenance sweep at `now`: retire the fired timer, evict
    /// every record whose last update is at least the stale timeout old,
    /// and, exactly if records remain, arrange the next sweep.
    ///
    /// The caller is the host's timer loop, handing back the fired
    /// maintenance timer id; this cache must believe that timer pending.
    #[verifier::rlimit(60)]
    pub fn handle_pmtu_timer(&mut self, sched: &mut TimerSchedule, now: Instant)
        requires
            old(self).wf(),
            old(sched).wf(),
            old(self).timer_sync(old(sched)@),
            old(self).timer_scheduled,
            now.millis + MAINTENANCE_PERIOD_MS <= u64::MAX,
        ensures
            final(self).wf(),
            final(sched).wf(),
            final(self).timer_sync(final(sched)@),
            final(self).version == old(self).version,
            final(self)@ == Map::new(
                |k: PathMtuCacheKey|
                    old(self)@.contains_key(k) && pmtu_entry_fresh(old(self)@[k], now),
                |k: PathMtuCacheKey| old(self)@[k],
            ),
            final(self).timer_scheduled <==> (exists|k: PathMtuCacheKey|
                final(self)@.contains_key(k)),
            final(sched)@ == (if exists|k: PathMtuCacheKey| final(self)@.contains_key(k) {
                old(sched)@.insert(
                    old(self).timer_id(),
                    (Instant { millis: (now.millis + MAINTENANCE_PERIOD_MS) as u64 }),
                )
            } else {
                old(sched)@.remove(old(self).timer_id())
            }),
    {
        // The fired timer is spent: retire it and note that none is pending.
        let fired = sched.cancel_timer(TimerId::PmtuMaintenance(self.version));
        assert(fired is Some);
        self.timer_scheduled = false;

        // Evict every stale record, keeping the fresh ones in order.
        let ghost orig = self.cache@;
        let mut kept: Vec<(PathMtuCacheKey, PathMtuCacheData)> = Vec::new();
        let mut i: usize = 0;
        while i < self.cache.len()
            invariant
                i <= self.cache@.len(),
                self.cache@ == orig,
                kept@ == orig.subrange(0, i as int).filter(fresh_pred(now)),
            decreases self.cache@.len() - i,
        {
            let entry = self.cache[i];
            proof {
                reveal(Seq::filter);
                assert(orig.subrange(0, i + 1 as int).drop_last() =~= orig.subrange(0, i as int));
                assert(orig.subrange(0, i + 1 as int).last() == orig[i as int]);
            }
            if now.saturating_duration_since(entry.1.last_updated) < PMTU_STALE_TIMEOUT_MS {
                assert(pmtu_entry_fresh(entry.1, now));
                kept.push(entry);
            } else {
                assert(!pmtu_entry_fresh(entry.1, now));
            }
            i = i + 1;
        }
        proof {
            assert(orig.subrange(0, orig.len() as int) =~= orig);
            lemma_sweep_map(orig, now);
        }
        self.cache = kept;
        proof {
            // Every surviving record came from the old cache, so it still
            // respects the family minimum.
            assert forall|m: int| 0 <= m < self.cache@.len() implies (#[trigger] self.cache@[m]).1.pmtu
                >= min_mtu_spec(self.version) by {
                lemma_assoc_map_index(self.cache@, m);
                let k = self.cache@[m].0;
                lemma_assoc_map_dom(orig, k);
                let l = choose|l: int| 0 <= l < orig.len() && (#[trigger] orig[l]).0 == k;
                lemma_assoc_map_index(orig, l);
            }
        }

        // Only arrange another sweep if records remain; otherwise the next
        // insertion will.
        if self.cache.len() != 0 {
            proof {
                lemma_assoc_map_index(self.cache@, 0);
            }
            self.create_maintenance_timer(sched, now);
            proof {
                let id = old(self).timer_id();
                let d = Instant { millis: (now.millis + MAINTENANCE_PERIOD_MS) as u64 };
                assert(old(sched)@.remove(id).insert(id, d) =~= old(sched)@.insert(id, d));
                assert(self@.contains_key(self.cache@[0].0));
            }
        } else {
            proof {
                if exists|k: PathMtuCacheKey| self@.contains_key(k) {
                    let k = choose|k: PathMtuCacheKey| self@.contains_key(k);
                    lemma_assoc_map_dom(self.cache@, k);
                }
            }
        }
    }
}


/// Monotone descent: one conditional update never raises a recorded
/// estimate. `after` is related to `before` exactly as
/// `update_pmtu_if_less` relates them for one path `key`.
pub proof fn lemma_update_if_less_monotone(
    before: Map<PathMtuCacheKey, PathMtuCacheData>,
    after: Map<PathMtuCacheKey, PathMtuCacheData>,
    key: PathMtuCacheKey,
    new_mtu: u32,
    now: Instant,
    version: IpVersion,
)
    requires
        before.contains_key(key),
        (match pmtu_lookup(before, key) {
            Some(m) => if new_mtu >= m {
                after == before
            } else if new_mtu < min_mtu_spec(version) {
                after == before
            } else {
                after == before.insert(
                    key,
                    (PathMtuCacheData { pmtu: new_mtu, last_updated: now }),
                )
            },
            None => true,
        }),
    ensures
        after.contains_key(key),
        after[key].pmtu <= before[key].pmtu,
{
}

/// The floor under descent: every recorded estimate of a well-formed
/// cache respects its family's minimum MTU.
pub proof fn lemma_pmtu_floor(c: &IpLayerPathMtuCache, key: PathMtuCacheKey)
    requires
        c.wf(),
        c@.contains_key(key),
    ensures
        c@[key].pmtu >= min_mtu_spec(c.version),
{
    lemma_assoc_map_dom(c.cache@, key);
    let i = choose|i: int| 0 <= i < c.cache@.len() && (#[trigger] c.cache@[i]).0 == key;
    lemma_assoc_map_index(c.cache@, i);
}

/// Staleness eviction: a record last updated at `t` is gone after a
/// maintenance sweep whose `now` is at least the stale timeout later.
/// `after` is related to `before` exactly as `handle_pmtu_timer` relates
/// them.
pub proof fn lemma_stale_entry_evicted(
    before: Map<PathMtuCacheKey, PathMtuCacheData>,
    after: Map<PathMtuCacheKey, PathMtuCacheData>,
    key: PathMtuCacheKey,
    now: Instant,
)
    requires
        after == Map::new(
            |k: PathMtuCacheKey| before.contains_key(k) && pmtu_entry_fresh(before[k], now),
            |k: PathMtuCacheKey| before[k],
        ),
        before.contains_key(key),
        now.millis >= before[key].last_updated.millis + PMTU_STALE_TIMEOUT_MS,
    ensures
        !after.contains_key(key),
{
}

} // verus!
