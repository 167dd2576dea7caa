//! Path-MTU cache behaviour, driven through the dispatcher.

use netstack_ip::context::{get_pmtu, handle_timer, update_pmtu, update_pmtu_if_less, Ctx};
use netstack_ip::ip::{IpAddr, IpVersion, Ipv4Addr, Ipv6Addr};
use netstack_ip::path_mtu::{min_mtu, next_lower_pmtu_plateau};
use netstack_ip::time::Instant;

fn v4(a: u32) -> IpAddr {
    IpAddr::V4(Ipv4Addr::new(a))
}

fn v6(a: u128) -> IpAddr {
    IpAddr::V6(Ipv6Addr::new(a))
}

fn local_ip(version: IpVersion) -> IpAddr {
    match version {
        IpVersion::V4 => v4(0xC0A8_0001),
        IpVersion::V6 => v6(0xC0A8_0001),
    }
}

fn remote_ip(version: IpVersion) -> IpAddr {
    match version {
        IpVersion::V4 => v4(0xC0A8_0002),
        IpVersion::V6 => v6(0xC0A8_0002),
    }
}

fn get_other_ip(version: IpVersion) -> IpAddr {
    match version {
        IpVersion::V4 => v4(0xC0A8_0003),
        IpVersion::V6 => v6(0xC0A8_0003),
    }
}

fn at(secs: u64) -> Instant {
    Instant::from_millis(secs * 1000)
}

/// Fire every timer due by `target`, in deadline order; returns how many
/// fired.
fn run_until(ctx: &mut Ctx, target: Instant) -> usize {
    let mut fired = 0;
    loop {
        match ctx.timers.earliest() {
            Some((id, deadline)) if deadline.millis <= target.millis => {
                handle_timer(ctx, id, deadline);
                fired += 1;
            }
            _ => return fired,
        }
    }
}

fn get_pmtu_last_updated(ctx: &Ctx, src: IpAddr, dst: IpAddr) -> Option<Instant> {
    match src.version() {
        IpVersion::V4 => ctx.v4_path_mtu.get_last_updated(src, dst),
        IpVersion::V6 => ctx.v6_path_mtu.get_last_updated(src, dst),
    }
}

#[test]
fn test_next_lower_pmtu_plateau() {
    assert_eq!(next_lower_pmtu_plateau(65536).unwrap(), 65535);
    assert_eq!(next_lower_pmtu_plateau(65535).unwrap(), 32000);
    assert_eq!(next_lower_pmtu_plateau(65534).unwrap(), 32000);
    assert_eq!(next_lower_pmtu_plateau(32001).unwrap(), 32000);
    assert_eq!(next_lower_pmtu_plateau(32000).unwrap(), 17914);
    assert_eq!(next_lower_pmtu_plateau(31999).unwrap(), 17914);
    assert_eq!(next_lower_pmtu_plateau(1281).unwrap(), 1280);
    assert_eq!(next_lower_pmtu_plateau(1280).unwrap(), 1006);
    assert_eq!(next_lower_pmtu_plateau(69).unwrap(), 68);
    assert_eq!(next_lower_pmtu_plateau(68), None);
    assert_eq!(next_lower_pmtu_plateau(67), None);
    assert_eq!(next_lower_pmtu_plateau(0), None);
}

fn test_ip_path_mtu_cache_ctx(version: IpVersion) {
    let local = local_ip(version);
    let remote = remote_ip(version);
    let mut ctx = Ctx::new();

    // Nothing in the cache yet.
    assert_eq!(get_pmtu(&ctx, local, remote), None);
    assert_eq!(get_pmtu_last_updated(&ctx, local, remote), None);

    let new_mtu1 = min_mtu(version) + 50;

    // Update pmtu from local to remote at 1s.
    assert_eq!(update_pmtu(&mut ctx, at(1), local, remote, new_mtu1).unwrap(), None);

    // Make sure the update worked.
    assert_eq!(get_pmtu(&ctx, local, remote).unwrap(), new_mtu1);
    assert_eq!(get_pmtu_last_updated(&ctx, local, remote).unwrap(), at(1));

    let new_mtu2 = min_mtu(version) + 100;

    // Updating again at 3s should return the last pmtu.
    assert_eq!(update_pmtu(&mut ctx, at(3), local, remote, new_mtu2).unwrap().unwrap(), new_mtu1);
    assert_eq!(get_pmtu(&ctx, local, remote).unwrap(), new_mtu2);
    assert_eq!(get_pmtu_last_updated(&ctx, local, remote).unwrap(), at(3));

    let new_mtu3 = new_mtu2 - 10;

    // Update only if new PMTU is less than current (it is), at 5s.
    assert_eq!(
        update_pmtu_if_less(&mut ctx, at(5), local, remote, new_mtu3).unwrap().unwrap(),
        new_mtu2
    );
    assert_eq!(get_pmtu(&ctx, local, remote).unwrap(), new_mtu3);
    let last_updated = at(5);
    assert_eq!(get_pmtu_last_updated(&ctx, local, remote).unwrap(), last_updated);

    let new_mtu4 = new_mtu3 + 50;

    // Update only if new PMTU is less than current (it is not), at 7s.
    assert_eq!(
        update_pmtu_if_less(&mut ctx, at(7), local, remote, new_mtu4).unwrap().unwrap(),
        new_mtu3
    );
    assert_eq!(get_pmtu(&ctx, local, remote).unwrap(), new_mtu3);
    assert_eq!(get_pmtu_last_updated(&ctx, local, remote).unwrap(), last_updated);

    let low_mtu = min_mtu(version) - 1;

    // Updating with an MTU below the minimum must fail, at 9s.
    assert_eq!(
        update_pmtu_if_less(&mut ctx, at(9), local, remote, low_mtu).unwrap_err().unwrap(),
        new_mtu3
    );
    assert_eq!(get_pmtu(&ctx, local, remote).unwrap(), new_mtu3);
    assert_eq!(get_pmtu_last_updated(&ctx, local, remote).unwrap(), last_updated);
}

#[test]
fn test_ipv4_path_mtu_cache_ctx() {
    test_ip_path_mtu_cache_ctx(IpVersion::V4);
}

#[test]
fn test_ipv6_path_mtu_cache_ctx() {
    test_ip_path_mtu_cache_ctx(IpVersion::V6);
}

fn test_ip_pmtu_task(version: IpVersion) {
    let local = local_ip(version);
    let remote = remote_ip(version);
    let mut ctx = Ctx::new();

    // Make sure there are no timers.
    assert_eq!(ctx.timers.len(), 0);

    let new_mtu1 = min_mtu(version) + 50;

    // Update pmtu from local to remote at 1s; a maintenance task must be
    // scheduled by the insertion into an empty cache.
    assert_eq!(update_pmtu(&mut ctx, at(1), local, remote, new_mtu1).unwrap(), None);
    assert_eq!(ctx.timers.len(), 1);
    assert_eq!(get_pmtu(&ctx, local, remote).unwrap(), new_mtu1);
    assert_eq!(get_pmtu_last_updated(&ctx, local, remote).unwrap(), at(1));

    // At 30 minutes, update pmtu from local to another remote.
    assert_eq!(run_until(&mut ctx, at(1800)), 0);
    let other_ip = get_other_ip(version);
    let new_mtu2 = min_mtu(version) + 100;
    assert_eq!(update_pmtu(&mut ctx, at(1800), local, other_ip, new_mtu2).unwrap(), None);

    // Still exactly one maintenance task.
    assert_eq!(ctx.timers.len(), 1);
    assert_eq!(get_pmtu(&ctx, local, other_ip).unwrap(), new_mtu2);
    assert_eq!(get_pmtu_last_updated(&ctx, local, other_ip).unwrap(), at(1800));
    assert_eq!(get_pmtu(&ctx, local, remote).unwrap(), new_mtu1);
    assert_eq!(get_pmtu_last_updated(&ctx, local, remote).unwrap(), at(1));

    // At 1hr + 1s the first maintenance fires; nothing is stale yet.
    assert_eq!(run_until(&mut ctx, at(3601)), 1);
    assert_eq!(get_pmtu(&ctx, local, remote).unwrap(), new_mtu1);
    assert_eq!(get_pmtu_last_updated(&ctx, local, remote).unwrap(), at(1));
    assert_eq!(get_pmtu(&ctx, local, other_ip).unwrap(), new_mtu2);
    assert_eq!(get_pmtu_last_updated(&ctx, local, other_ip).unwrap(), at(1800));
    assert_eq!(ctx.timers.len(), 1);

    // By 3hr + 1s two more maintenance passes ran; only the first record
    // has gone stale and been evicted.
    assert_eq!(run_until(&mut ctx, at(10801)), 2);
    assert!(get_pmtu(&ctx, local, remote).is_none());
    assert!(get_pmtu_last_updated(&ctx, local, remote).is_none());
    assert_eq!(get_pmtu(&ctx, local, other_ip).unwrap(), new_mtu2);
    assert_eq!(get_pmtu_last_updated(&ctx, local, other_ip).unwrap(), at(1800));
    assert_eq!(ctx.timers.len(), 1);

    // By 4hr + 1s the second record has gone stale too; with the cache
    // empty, no further maintenance is scheduled.
    assert_eq!(run_until(&mut ctx, at(14401)), 1);
    assert!(get_pmtu(&ctx, local, remote).is_none());
    assert!(get_pmtu_last_updated(&ctx, local, remote).is_none());
    assert!(get_pmtu(&ctx, local, other_ip).is_none());
    assert!(get_pmtu_last_updated(&ctx, local, other_ip).is_none());
    assert_eq!(ctx.timers.len(), 0);
}

#[test]
fn test_ipv4_pmtu_task() {
    test_ip_pmtu_task(IpVersion::V4);
}

#[test]
fn test_ipv6_pmtu_task() {
    test_ip_pmtu_task(IpVersion::V6);
}

#[test]
fn test_update_pmtu_next_lower_descends_plateaus() {
    let local = local_ip(IpVersion::V4);
    let remote = remote_ip(IpVersion::V4);
    let mut ctx = Ctx::new();

    // From 1500, the greatest plateau below is 1492.
    let (prior, chosen) =
        netstack_ip::context::update_pmtu_next_lower(&mut ctx, at(1), local, remote, 1500)
            .unwrap();
    assert_eq!(prior, None);
    assert_eq!(chosen, 1492);
    assert_eq!(get_pmtu(&ctx, local, remote).unwrap(), 1492);

    // From 1492, descend to 1280.
    let (prior, chosen) =
        netstack_ip::context::update_pmtu_next_lower(&mut ctx, at(2), local, remote, 1492)
            .unwrap();
    assert_eq!(prior, Some(1492));
    assert_eq!(chosen, 1280);
    assert_eq!(get_pmtu(&ctx, local, remote).unwrap(), 1280);

    // At or below the lowest plateau there is nothing to descend to.
    assert_eq!(
        netstack_ip::context::update_pmtu_next_lower(&mut ctx, at(3), local, remote, 68)
            .unwrap_err(),
        Some(1280)
    );
    assert_eq!(get_pmtu(&ctx, local, remote).unwrap(), 1280);
}

#[test]
fn test_min_mtu_values() {
    assert_eq!(min_mtu(IpVersion::V4), 68);
    assert_eq!(min_mtu(IpVersion::V6), 1280);
}
