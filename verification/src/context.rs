//! The per-stack state: both families' caches and the shared timer
//! schedule, with the family-dispatching entry points.

use vstd::prelude::*;

use crate::ip::{IpAddr, IpVersion};
use crate::packet::Packet;
use crate::path_mtu::{min_mtu_spec, pmtu_lookup, IpLayerPathMtuCache, PathMtuCacheKey,
    MAINTENANCE_PERIOD_MS};
use crate::reassembly::{key_of, pf_empty_body, pf_fits, pf_header_ok, pf_keyed, pf_misaligned,
    pf_not_needed, pf_out_of_range, pf_terminal_ok, FragmentCacheKey, FragmentProcessingState,
    FragmentReassemblyError, IpLayerFragmentCache, REASSEMBLY_TIMEOUT_MS};
use crate::time::Instant;
use crate::timer::{TimerId, TimerSchedule};

verus! {

/// The whole core's state: one fragment cache and one PMTU cache per
/// address family, and the schedule of timers the host owes us.
pub struct Ctx {
    pub v4_fragments: IpLayerFragmentCache,
    pub v6_fragments: IpLayerFragmentCache,
    pub v4_path_mtu: IpLayerPathMtuCache,
    pub v6_path_mtu: IpLayerPathMtuCache,
    pub timers: TimerSchedule,
}

impl Ctx {
    /// Each part is well formed and serves its own family, and the timer
    /// schedule is in step with all four caches.
    pub open spec fn wf(&self) -> bool {
        &&& self.timers.wf()
        &&& self.v4_fragments.wf()
        &&& self.v6_fragments.wf()
        &&& self.v4_path_mtu.wf()
        &&& self.v6_path_mtu.wf()
        &&& self.v4_fragments.version == IpVersion::V4
        &&& self.v6_fragments.version == IpVersion::V6
        &&& self.v4_path_mtu.version == IpVersion::V4
        &&& self.v6_path_mtu.version == IpVersion::V6
        &&& self.v4_fragments.timer_sync(self.timers@)
        &&& self.v6_fragments.timer_sync(self.timers@)
        &&& self.v4_path_mtu.timer_sync(self.timers@)
        &&& self.v6_path_mtu.timer_sync(self.timers@)
    }

    /// A fresh core with empty caches and no timers pending.
    pub fn new() -> (r: Ctx)
        ensures
            r.wf(),
            r.v4_fragments@ == Map::<FragmentCacheKey, crate::reassembly::FragEntry>::empty(),
            r.v6_fragments@ == Map::<FragmentCacheKey, crate::reassembly::FragEntry>::empty(),
            r.v4_path_mtu@ == Map::<
                PathMtuCacheKey,
                crate::path_mtu::PathMtuCacheData,
            >::empty(),
            r.v6_path_mtu@ == Map::<
                PathMtuCacheKey,
                crate::path_mtu::PathMtuCacheData,
            >::empty(),
            r.timers@ == Map::<TimerId, Instant>::empty(),
    {
        Ctx {
            v4_fragments: IpLayerFragmentCache::new(IpVersion::V4),
            v6_fragments: IpLayerFragmentCache::new(IpVersion::V6),
            v4_path_mtu: IpLayerPathMtuCache::new(IpVersion::V4),
            v6_path_mtu: IpLayerPathMtuCache::new(IpVersion::V6),
            timers: TimerSchedule::new(),
        }
    }

    /// The fragment cache serving `version`.
    pub open spec fn fragments_of(&self, version: IpVersion) -> IpLayerFragmentCache {
        match version {
            IpVersion::V4 => self.v4_fragments,
            IpVersion::V6 => self.v6_fragments,
        }
    }

    /// The PMTU cache serving `version`.
    pub open spec fn path_mtu_of(&self, version: IpVersion) -> IpLayerPathMtuCache {
        match version {
            IpVersion::V4 => self.v4_path_mtu,
            IpVersion::V6 => self.v6_path_mtu,
        }
    }
}

/// Attempts to process a packet fragment in the cache of the packet's
/// family.
///
/// See [`IpLayerFragmentCache::process_fragment`].
pub fn process_fragment(ctx: &mut Ctx, now: Instant, packet: Packet) -> (r:
    FragmentProcessingState)
    requires
        old(ctx).wf(),
        packet.src_ip.version_spec() == packet.dst_ip.version_spec(),
        now.millis + REASSEMBLY_TIMEOUT_MS <= u64::MAX,
        pf_terminal_ok(old(ctx).fragments_of(packet.src_ip.version_spec())@, packet),
        pf_header_ok(packet),
    ensures
        final(ctx).wf(),
        ({
            let v = packet.src_ip.version_spec();
            let before = old(ctx).fragments_of(v);
            let after = final(ctx).fragments_of(v);
            &&& final(ctx).fragments_of(other_version(v)) == old(ctx).fragments_of(
                other_version(v),
            )
            &&& final(ctx).v4_path_mtu == old(ctx).v4_path_mtu
            &&& final(ctx).v6_path_mtu == old(ctx).v6_path_mtu
            &&& pf_not_needed(packet) ==> (match r {
                FragmentProcessingState::NotNeeded(q) => q == packet,
                _ => false,
            }) && after@ == before@ && final(ctx).timers@ == old(ctx).timers@
            &&& pf_empty_body(packet) ==> r is NeedMoreFragments && after@ == before@ && final(ctx).timers@ == old(ctx).timers@
            &&& pf_misaligned(packet) ==> r is InvalidFragment && after@ == before@ && final(ctx).timers@ == old(ctx).timers@
            &&& pf_out_of_range(packet) ==> r is InvalidFragment && after@ == before@.remove(
                key_of(packet),
            ) && final(ctx).timers@ == old(ctx).timers@.remove(
                before.timer_id(key_of(packet)),
            )
            &&& pf_keyed(packet) && pf_fits(before@, packet) ==> {
                &&& after@.contains_key(key_of(packet))
                &&& after@ == before@.insert(key_of(packet), after@[key_of(packet)])
                &&& (match r {
                    FragmentProcessingState::Ready { key: k2, packet_len } => after@[key_of(
                        packet,
                    )].gaps.len() == 0 && k2 == key_of(packet) && packet_len == after@[key_of(
                        packet,
                    )].total,
                    FragmentProcessingState::NeedMoreFragments => after@[key_of(
                        packet,
                    )].gaps.len() != 0,
                    _ => false,
                })
                &&& (!before@.contains_key(key_of(packet)) ==> final(ctx).timers@ == old(ctx).timers@.insert(
                    before.timer_id(key_of(packet)),
                    (Instant { millis: (now.millis + REASSEMBLY_TIMEOUT_MS) as u64 }),
                ))
                &&& (before@.contains_key(key_of(packet)) ==> final(ctx).timers@ == old(ctx).timers@)
            }
            &&& pf_keyed(packet) && !pf_fits(before@, packet) ==> r is InvalidFragment && after@
                == before@.remove(key_of(packet)) && final(ctx).timers@ == old(ctx).timers@.remove(before.timer_id(key_of(packet)))
        }),
{
    match packet.src_ip.version() {
        IpVersion::V4 => ctx.v4_fragments.process_fragment(&mut ctx.timers, now, packet),
        IpVersion::V6 => ctx.v6_fragments.process_fragment(&mut ctx.timers, now, packet),
    }
}

/// The family an address does not belong to.
pub open spec fn other_version(v: IpVersion) -> IpVersion {
    match v {
        IpVersion::V4 => IpVersion::V6,
        IpVersion::V6 => IpVersion::V4,
    }
}

/// Attempts to reassemble a packet in the cache of `version`.
///
/// See [`IpLayerFragmentCache::reassemble_packet`].
pub fn reassemble_packet(
    ctx: &mut Ctx,
    version: IpVersion,
    key: &FragmentCacheKey,
    buffer: &mut Vec<u8>,
) -> (r: Result<(), FragmentReassemblyError>)
    requires
        old(ctx).wf(),
        ({
            let c = old(ctx).fragments_of(version)@;
            c.contains_key(*key) && c[*key].gaps.len() == 0 ==> old(buffer)@.len() == c[*key].total
        }),
        ({
            let c = old(ctx).fragments_of(version)@;
            (c.contains_key(*key) && c[*key].gaps.len() == 0 && version == IpVersion::V4
                && c[*key].total <= 0xFFFF) ==> crate::reassembly::header_len(c[*key].header)
                >= 20
        }),
    ensures
        final(ctx).wf(),
        final(buffer)@.len() == old(buffer)@.len(),
        final(ctx).fragments_of(other_version(version)) == old(ctx).fragments_of(
            other_version(version),
        ),
        final(ctx).v4_path_mtu == old(ctx).v4_path_mtu,
        final(ctx).v6_path_mtu == old(ctx).v6_path_mtu,
        ({
            let c = old(ctx).fragments_of(version)@;
            let after = final(ctx).fragments_of(version)@;
            &&& !c.contains_key(*key) ==> r == Err::<(), FragmentReassemblyError>(
                FragmentReassemblyError::InvalidKey,
            ) && after == c && final(ctx).timers@ == old(ctx).timers@ && final(buffer)@ == old(buffer)@
            &&& c.contains_key(*key) && c[*key].gaps.len() != 0 ==> r == Err::<
                (),
                FragmentReassemblyError,
            >(FragmentReassemblyError::MissingFragments) && after == c && final(ctx).timers@
                == old(ctx).timers@ && final(buffer)@ == old(buffer)@
            &&& (c.contains_key(*key) && c[*key].gaps.len() == 0 && version == IpVersion::V4
                && c[*key].total > 0xFFFF) ==> r == Err::<(), FragmentReassemblyError>(
                FragmentReassemblyError::PacketParsingError,
            ) && after == c.remove(*key) && final(ctx).timers@ == old(ctx).timers@.remove(
                old(ctx).fragments_of(version).timer_id(*key),
            ) && final(buffer)@ == old(buffer)@
            &&& (c.contains_key(*key) && c[*key].gaps.len() == 0 && (version != IpVersion::V4 || c[*key].total <= 0xFFFF)) ==> r == Ok::<(), FragmentReassemblyError>(()) && after
                == c.remove(*key) && final(ctx).timers@ == old(ctx).timers@.remove(
                old(ctx).fragments_of(version).timer_id(*key),
            ) && final(buffer)@ == crate::reassembly::assembled_bytes(version, c[*key])
        }),
{
    match version {
        IpVersion::V4 => ctx.v4_fragments.reassemble_packet(&mut ctx.timers, key, buffer),
        IpVersion::V6 => ctx.v6_fragments.reassemble_packet(&mut ctx.timers, key, buffer),
    }
}

/// Handles a reassembly timeout delivered by the host's timer loop.
///
/// See [`IpLayerFragmentCache::handle_reassembly_timeout`].
pub fn handle_reassembly_timeout(ctx: &mut Ctx, version: IpVersion, key: FragmentCacheKey)
    requires
        old(ctx).wf(),
        old(ctx).fragments_of(version)@.contains_key(key),
    ensures
        final(ctx).wf(),
        final(ctx).fragments_of(version)@ == old(ctx).fragments_of(version)@.remove(key),
        final(ctx).timers@ == old(ctx).timers@.remove(
            old(ctx).fragments_of(version).timer_id(key),
        ),
        final(ctx).fragments_of(other_version(version)) == old(ctx).fragments_of(
            other_version(version),
        ),
        final(ctx).v4_path_mtu == old(ctx).v4_path_mtu,
        final(ctx).v6_path_mtu == old(ctx).v6_path_mtu,
{
    match version {
        IpVersion::V4 => ctx.v4_fragments.handle_reassembly_timeout(&mut ctx.timers, key),
        IpVersion::V6 => ctx.v6_fragments.handle_reassembly_timeout(&mut ctx.timers, key),
    }
}

/// Get the PMTU between `src_ip` and `dst_ip`, if one is recorded.
pub fn get_pmtu(ctx: &Ctx, src_ip: IpAddr, dst_ip: IpAddr) -> (r: Option<u32>)
    requires
        ctx.wf(),
        src_ip.version_spec() == dst_ip.version_spec(),
    ensures
        r == pmtu_lookup(
            ctx.path_mtu_of(src_ip.version_spec())@,
            PathMtuCacheKey(src_ip.bits_spec(), dst_ip.bits_spec()),
        ),
{
    match src_ip.version() {
        IpVersion::V4 => ctx.v4_path_mtu.get_pmtu(src_ip, dst_ip),
        IpVersion::V6 => ctx.v6_path_mtu.get_pmtu(src_ip, dst_ip),
    }
}

/// Set the PMTU between `src_ip` and `dst_ip` unconditionally (subject to
/// the family's minimum), stamping the record with `now`.
///
/// See [`IpLayerPathMtuCache::update_pmtu_inner`].
pub fn update_pmtu(ctx: &mut Ctx, now: Instant, src_ip: IpAddr, dst_ip: IpAddr, new_mtu: u32) -> (r:
    Result<Option<u32>, Option<u32>>)
    requires
        old(ctx).wf(),
        src_ip.version_spec() == dst_ip.version_spec(),
        now.millis + MAINTENANCE_PERIOD_MS <= u64::MAX,
    ensures
        final(ctx).wf(),
        pmtu_others_unchanged(old(ctx), final(ctx), src_ip.version_spec()),
        ({
            let v = src_ip.version_spec();
            let key = PathMtuCacheKey(src_ip.bits_spec(), dst_ip.bits_spec());
            let before = old(ctx).path_mtu_of(v);
            let after = final(ctx).path_mtu_of(v);
            let prior = pmtu_lookup(before@, key);
            if new_mtu < min_mtu_spec(v) {
                &&& r == Err::<Option<u32>, Option<u32>>(prior)
                &&& after@ == before@
                &&& after.timer_scheduled == before.timer_scheduled
                &&& final(ctx).timers@ == old(ctx).timers@
            } else {
                &&& r == Ok::<Option<u32>, Option<u32>>(prior)
                &&& after@ == before@.insert(
                    key,
                    (crate::path_mtu::PathMtuCacheData { pmtu: new_mtu, last_updated: now }),
                )
                &&& after.timer_scheduled
                &&& final(ctx).timers@ == (if before.timer_scheduled {
                    old(ctx).timers@
                } else {
                    old(ctx).timers@.insert(
                        TimerId::PmtuMaintenance(v),
                        (Instant { millis: (now.millis + MAINTENANCE_PERIOD_MS) as u64 }),
                    )
                })
            }
        }),
{
    match src_ip.version() {
        IpVersion::V4 => ctx.v4_path_mtu.update_pmtu_inner(
            &mut ctx.timers,
            now,
            src_ip,
            dst_ip,
            new_mtu,
        ),
        IpVersion::V6 => ctx.v6_path_mtu.update_pmtu_inner(
            &mut ctx.timers,
            now,
            src_ip,
            dst_ip,
            new_mtu,
        ),
    }
}

/// Everything not serving `v`'s PMTU cache is untouched.
pub open spec fn pmtu_others_unchanged(before: &Ctx, after: &Ctx, v: IpVersion) -> bool {
    &&& after.path_mtu_of(other_version(v)) == before.path_mtu_of(other_version(v))
    &&& after.v4_fragments == before.v4_fragments
    &&& after.v6_fragments == before.v6_fragments
}

/// Update the PMTU between `src_ip` and `dst_ip` only if `new_mtu` is less
/// than the current estimate, or none is recorded.
pub fn update_pmtu_if_less(
    ctx: &mut Ctx,
    now: Instant,
    src_ip: IpAddr,
    dst_ip: IpAddr,
    new_mtu: u32,
) -> (r: Result<Option<u32>, Option<u32>>)
    requires
        old(ctx).wf(),
        src_ip.version_spec() == dst_ip.version_spec(),
        now.millis + MAINTENANCE_PERIOD_MS <= u64::MAX,
    ensures
        final(ctx).wf(),
        pmtu_others_unchanged(old(ctx), final(ctx), src_ip.version_spec()),
        ({
            let v = src_ip.version_spec();
            let key = PathMtuCacheKey(src_ip.bits_spec(), dst_ip.bits_spec());
            let before = old(ctx).path_mtu_of(v);
            let after = final(ctx).path_mtu_of(v);
            let prior = pmtu_lookup(before@, key);
            match prior {
                Some(mtu) if new_mtu >= mtu => {
                    &&& r == Ok::<Option<u32>, Option<u32>>(prior)
                    &&& after@ == before@
                    &&& after.timer_scheduled == before.timer_scheduled
                    &&& final(ctx).timers@ == old(ctx).timers@
                },
                _ => {
                    if new_mtu < min_mtu_spec(v) {
                        &&& r == Err::<Option<u32>, Option<u32>>(prior)
                        &&& after@ == before@
                        &&& after.timer_scheduled == before.timer_scheduled
                        &&& final(ctx).timers@ == old(ctx).timers@
                    } else {
                        &&& r == Ok::<Option<u32>, Option<u32>>(prior)
                        &&& after@ == before@.insert(
                            key,
                            (crate::path_mtu::PathMtuCacheData {
                                pmtu: new_mtu,
                                last_updated: now,
                            }),
                        )
                        &&& after.timer_scheduled
                        &&& final(ctx).timers@ == (if before.timer_scheduled {
                            old(ctx).timers@
                        } else {
                            old(ctx).timers@.insert(
                                TimerId::PmtuMaintenance(v),
                                (Instant { millis: (now.millis + MAINTENANCE_PERIOD_MS) as u64 }),
                            )
                        })
                    }
                },
            }
        }),
{
    let prev_mtu = get_pmtu(ctx, src_ip, dst_ip);
    match prev_mtu {
        // No PMTU is known for this path yet, so record one.
        None => update_pmtu(ctx, now, src_ip, dst_ip, new_mtu),
        // A PMTU is known but the new estimate is lower, so descend.
        Some(mtu) if new_mtu < mtu => update_pmtu(ctx, now, src_ip, dst_ip, new_mtu),
        // The new estimate is no improvement; keep what is recorded.
        _ => Ok(prev_mtu),
    }
}

/// Update the PMTU between `src_ip` and `dst_ip` to the greatest plateau
/// value strictly below `from`, when that is an improvement.
///
/// Returns `Err` with the unchanged estimate when no plateau lies below
/// `from` or the chosen plateau is under the family minimum; otherwise
/// behaves as `update_pmtu_if_less` on the chosen plateau, which is
/// returned alongside the prior estimate.
pub fn update_pmtu_next_lower(
    ctx: &mut Ctx,
    now: Instant,
    src_ip: IpAddr,
    dst_ip: IpAddr,
    from: u32,
) -> (r: Result<(Option<u32>, u32), Option<u32>>)
    requires
        old(ctx).wf(),
        src_ip.version_spec() == dst_ip.version_spec(),
        now.millis + MAINTENANCE_PERIOD_MS <= u64::MAX,
    ensures
        final(ctx).wf(),
        pmtu_others_unchanged(old(ctx), final(ctx), src_ip.version_spec()),
        ({
            let v = src_ip.version_spec();
            let key = PathMtuCacheKey(src_ip.bits_spec(), dst_ip.bits_spec());
            let before = old(ctx).path_mtu_of(v);
            let after = final(ctx).path_mtu_of(v);
            let prior = pmtu_lookup(before@, key);
            match r {
                Ok((p, chosen)) => {
                    &&& p == prior
                    &&& crate::path_mtu::is_plateau(chosen)
                    &&& chosen < from
                    &&& (forall|q: u32|
                        crate::path_mtu::is_plateau(q) && q < from ==> q <= chosen)
                    &&& (match prior {
                        Some(mtu) => chosen < mtu ==> after@ == before@.insert(
                            key,
                            (crate::path_mtu::PathMtuCacheData {
                                pmtu: chosen,
                                last_updated: now,
                            }),
                        ),
                        None => after@ == before@.insert(
                            key,
                            (crate::path_mtu::PathMtuCacheData {
                                pmtu: chosen,
                                last_updated: now,
                            }),
                        ),
                    })
                    &&& (match prior {
                        Some(mtu) => chosen >= mtu ==> after@ == before@,
                        None => true,
                    })
                },
                Err(p) => {
                    &&& p == prior
                    &&& after@ == before@
                    &&& (from <= 68 || (exists|q: u32|
                        crate::path_mtu::is_plateau(q) && q < from && q < min_mtu_spec(v)
                            && (match prior {
                            Some(mtu) => q < mtu,
                            None => true,
                        })))
                },
            }
        }),
{
    if let Some(next_pmtu) = crate::path_mtu::next_lower_pmtu_plateau(from) {
        let r = update_pmtu_if_less(ctx, now, src_ip, dst_ip, next_pmtu);
        match r {
            Ok(prior) => Ok((prior, next_pmtu)),
            Err(prior) => Err(prior),
        }
    } else {
        Err(get_pmtu(ctx, src_ip, dst_ip))
    }
}

/// Handles a PMTU maintenance timer delivered by the host's timer loop:
/// evict stale records and, exactly if records remain, arrange the next
/// sweep.
///
/// See [`IpLayerPathMtuCache::handle_pmtu_timer`].
pub fn handle_pmtu_timer(ctx: &mut Ctx, version: IpVersion, now: Instant)
    requires
        old(ctx).wf(),
        old(ctx).path_mtu_of(version).timer_scheduled,
        now.millis + MAINTENANCE_PERIOD_MS <= u64::MAX,
    ensures
        final(ctx).wf(),
        pmtu_others_unchanged(old(ctx), final(ctx), version),
        ({
            let before = old(ctx).path_mtu_of(version);
            let after = final(ctx).path_mtu_of(version);
            &&& after@ == Map::new(
                |k: PathMtuCacheKey|
                    before@.contains_key(k) && crate::path_mtu::pmtu_entry_fresh(before@[k], now),
                |k: PathMtuCacheKey| before@[k],
            )
            &&& (after.timer_scheduled <==> (exists|k: PathMtuCacheKey| after@.contains_key(k)))
            &&& final(ctx).timers@ == (if exists|k: PathMtuCacheKey| after@.contains_key(k) {
                old(ctx).timers@.insert(
                    TimerId::PmtuMaintenance(version),
                    (Instant { millis: (now.millis + MAINTENANCE_PERIOD_MS) as u64 }),
                )
            } else {
                old(ctx).timers@.remove(TimerId::PmtuMaintenance(version))
            })
        }),
{
    match version {
        IpVersion::V4 => ctx.v4_path_mtu.handle_pmtu_timer(&mut ctx.timers, now),
        IpVersion::V6 => ctx.v6_path_mtu.handle_pmtu_timer(&mut ctx.timers, now),
    }
}

/// Route a fired timer to its handler: a reassembly timeout discards its
/// group, a maintenance timer runs the eviction sweep. The host's timer
/// loop calls this with each id whose deadline has passed.
pub fn handle_timer(ctx: &mut Ctx, id: TimerId, now: Instant)
    requires
        old(ctx).wf(),
        now.millis + MAINTENANCE_PERIOD_MS <= u64::MAX,
        (match id {
            TimerId::ReassemblyTimeout(version, key) => old(ctx).fragments_of(
                version,
            )@.contains_key(key),
            TimerId::PmtuMaintenance(version) => old(ctx).path_mtu_of(version).timer_scheduled,
        }),
    ensures
        final(ctx).wf(),
        (match id {
            TimerId::ReassemblyTimeout(version, key) => {
                &&& final(ctx).fragments_of(version)@ == old(ctx).fragments_of(version)@.remove(
                    key,
                )
                &&& final(ctx).timers@ == old(ctx).timers@.remove(id)
                &&& final(ctx).fragments_of(other_version(version)) == old(ctx).fragments_of(
                    other_version(version),
                )
                &&& final(ctx).v4_path_mtu == old(ctx).v4_path_mtu
                &&& final(ctx).v6_path_mtu == old(ctx).v6_path_mtu
            },
            TimerId::PmtuMaintenance(version) => {
                let before = old(ctx).path_mtu_of(version);
                let after = final(ctx).path_mtu_of(version);
                &&& after@ == Map::new(
                    |k: PathMtuCacheKey|
                        before@.contains_key(k) && crate::path_mtu::pmtu_entry_fresh(
                            before@[k],
                            now,
                        ),
                    |k: PathMtuCacheKey| before@[k],
                )
                &&& (after.timer_scheduled <==> (exists|k: PathMtuCacheKey|
                    after@.contains_key(k)))
                &&& final(ctx).timers@ == (if exists|k: PathMtuCacheKey| after@.contains_key(k) {
                    old(ctx).timers@.insert(
                        id,
                        (Instant { millis: (now.millis + MAINTENANCE_PERIOD_MS) as u64 }),
                    )
                } else {
                    old(ctx).timers@.remove(id)
                })
                &&& pmtu_others_unchanged(old(ctx), final(ctx), version)
            },
        }),
{
    match id {
        TimerId::ReassemblyTimeout(version, key) => {
            handle_reassembly_timeout(ctx, version, key);
        },
        TimerId::PmtuMaintenance(version) => {
            handle_pmtu_timer(ctx, version, now);
        },
    }
}


/// Singleton maintenance timer: in a well-formed core, one family has its
/// maintenance timer pending exactly when its PMTU cache believes so; the
/// timer schedule is a map on timer ids, so at most one such timer per
/// family is ever pending.
pub proof fn lemma_singleton_maintenance_timer(ctx: &Ctx, version: IpVersion)
    requires
        ctx.wf(),
    ensures
        ctx.timers@.contains_key(TimerId::PmtuMaintenance(version)) <==> ctx.path_mtu_of(
            version,
        ).timer_scheduled,
{
}

/// A group is live exactly when its reassembly timer is pending, in
/// either family's fragment cache of a well-formed core.
pub proof fn lemma_reassembly_timer_pending(ctx: &Ctx, version: IpVersion, key: FragmentCacheKey)
    requires
        ctx.wf(),
    ensures
        ctx.timers@.contains_key(TimerId::ReassemblyTimeout(version, key)) <==> ctx.fragments_of(
            version,
        )@.contains_key(key),
{
    assert(ctx.fragments_of(version).timer_id(key) == TimerId::ReassemblyTimeout(version, key));
}

} // verus!
