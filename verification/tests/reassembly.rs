//! Fragment reassembly behaviour, driven through the dispatcher.

use netstack_ip::context::{handle_timer, process_fragment, reassemble_packet, Ctx};
use netstack_ip::ip::{IpAddr, IpVersion, Ipv4Addr};
use netstack_ip::packet::{FragmentInfo, Packet};
use netstack_ip::reassembly::{FragmentCacheKey, FragmentProcessingState, FragmentReassemblyError};
use netstack_ip::time::Instant;

fn remote_ip() -> IpAddr {
    IpAddr::V4(Ipv4Addr::new(0xC0A8_0002))
}

fn local_ip() -> IpAddr {
    IpAddr::V4(Ipv4Addr::new(0xC0A8_0001))
}

fn at(secs: u64) -> Instant {
    Instant::from_millis(secs * 1000)
}

/// A 20-byte IPv4 header image, as the host's parser would hand it over.
fn ipv4_header() -> Vec<u8> {
    let mut h = vec![0u8; 20];
    h[0] = 0x45; // version 4, header length 20
    h[8] = 10; // time to live
    h[9] = 6; // protocol
    h[12..16].copy_from_slice(&0xC0A8_0002u32.to_be_bytes());
    h[16..20].copy_from_slice(&0xC0A8_0001u32.to_be_bytes());
    h
}

fn make_fragment(fragment_id: u16, offset: u16, m_flag: bool, body: Vec<u8>) -> Packet {
    Packet {
        src_ip: remote_ip(),
        dst_ip: local_ip(),
        fragment: Some(FragmentInfo { id: fragment_id as u32, offset, m_flag }),
        header: ipv4_header(),
        body,
    }
}

fn expect_need_more(r: FragmentProcessingState) {
    match r {
        FragmentProcessingState::NeedMoreFragments => {}
        _ => panic!("not `NeedMoreFragments`"),
    }
}

fn expect_invalid(r: FragmentProcessingState) {
    match r {
        FragmentProcessingState::InvalidFragment => {}
        _ => panic!("not `InvalidFragment`"),
    }
}

fn expect_ready(
    r: FragmentProcessingState,
    fragment_id: u16,
    expected_len: usize,
) -> (FragmentCacheKey, usize) {
    match r {
        FragmentProcessingState::Ready { key, packet_len } => {
            assert_eq!(key, FragmentCacheKey::new(remote_ip(), local_ip(), fragment_id as u32));
            assert_eq!(packet_len, expected_len);
            (key, packet_len)
        }
        _ => panic!("not `Ready`"),
    }
}

/// Generate and process an IPv4 fragment packet with one 8-byte block,
/// mirroring the shape of the wider reassembly scenarios.
fn process_ipv4_fragment(
    ctx: &mut Ctx,
    now: Instant,
    fragment_id: u16,
    fragment_offset: u8,
    fragment_count: u8,
    ready: bool,
) {
    assert!(fragment_offset < fragment_count);
    let m_flag = fragment_offset < (fragment_count - 1);
    // Offset the body data values by the fragment id so different packets
    // carry different data.
    let body_offset = fragment_id as u8;
    let start = body_offset + fragment_offset * 8;
    let body: Vec<u8> = (start..start + 8).collect();
    let packet = make_fragment(fragment_id, fragment_offset as u16, m_flag, body);

    if ready {
        // The expected packet length includes the 20-byte IPv4 header.
        let expected = 8 * (fragment_count as usize) + 20;
        let (key, packet_len) =
            expect_ready(process_fragment(ctx, now, packet), fragment_id, expected);
        let mut buffer: Vec<u8> = vec![0; packet_len];
        reassemble_packet(ctx, IpVersion::V4, &key, &mut buffer).unwrap();
        let expected_body: Vec<u8> =
            (body_offset..body_offset + fragment_count * 8).collect();
        assert_eq!(&buffer[20..], &expected_body[..]);
    } else {
        expect_need_more(process_fragment(ctx, now, packet));
    }
}

/// Fire every timer due by `target`, in deadline order; returns how many
/// fired.
fn run_until(ctx: &mut Ctx, target: Instant) -> usize {
    let mut fired = 0;
    loop {
        match ctx.timers.earliest() {
            Some((id, deadline)) if deadline.millis <= target.millis => {
                handle_timer(ctx, id, deadline);
                fired += 1;
            }
            _ => return fired,
        }
    }
}

#[test]
fn test_ipv4_reassembly_not_needed() {
    let mut ctx = Ctx::new();

    // An unfragmented packet is returned untouched.
    let packet = Packet {
        src_ip: remote_ip(),
        dst_ip: local_ip(),
        fragment: None,
        header: ipv4_header(),
        body: vec![1, 2, 3, 4, 5],
    };
    match process_fragment(&mut ctx, at(0), packet) {
        FragmentProcessingState::NotNeeded(packet) => {
            assert_eq!(packet.body, [1, 2, 3, 4, 5]);
        }
        _ => panic!("`process_fragment` should have returned a `NotNeeded` value"),
    }

    // So is a fragment header claiming offset zero and no more fragments.
    let packet = make_fragment(7, 0, false, vec![1, 2, 3, 4, 5]);
    match process_fragment(&mut ctx, at(0), packet) {
        FragmentProcessingState::NotNeeded(packet) => {
            assert_eq!(packet.body, [1, 2, 3, 4, 5]);
        }
        _ => panic!("`process_fragment` should have returned a `NotNeeded` value"),
    }
}

#[test]
fn test_ipv4_reassembly() {
    let mut ctx = Ctx::new();
    let fragment_id = 5;

    // Reassemble three in-order fragments.
    process_ipv4_fragment(&mut ctx, at(0), fragment_id, 0, 3, false);
    process_ipv4_fragment(&mut ctx, at(0), fragment_id, 1, 3, false);
    process_ipv4_fragment(&mut ctx, at(0), fragment_id, 2, 3, true);
}

#[test]
fn test_ipv4_reassembly_with_with_packets_arriving_out_of_order() {
    let mut ctx = Ctx::new();
    let fragment_id = 0;

    // Process fragment 2, then 0, out of order.
    process_ipv4_fragment(&mut ctx, at(0), fragment_id, 2, 4, false);
    process_ipv4_fragment(&mut ctx, at(0), fragment_id, 0, 4, false);

    // Process the terminal fragment 3, 5 bytes long.
    let packet = make_fragment(fragment_id, 3, false, vec![24, 25, 26, 27, 28]);
    expect_need_more(process_fragment(&mut ctx, at(0), packet));

    // Fragment 1 completes the datagram: 20 header + 29 body bytes.
    let packet = make_fragment(fragment_id, 1, true, vec![8, 9, 10, 11, 12, 13, 14, 15]);
    let (key, packet_len) =
        expect_ready(process_fragment(&mut ctx, at(0), packet), fragment_id, 49);
    let mut buffer: Vec<u8> = vec![0; packet_len];
    reassemble_packet(&mut ctx, IpVersion::V4, &key, &mut buffer).unwrap();
    let expected_body: Vec<u8> = (0..29).collect();
    assert_eq!(&buffer[20..], &expected_body[..]);
}

#[test]
fn test_ipv4_reassemble_with_missing_blocks() {
    let mut ctx = Ctx::new();
    let fragment_id = 5;

    // Two of three fragments are here; reassembly must refuse.
    process_ipv4_fragment(&mut ctx, at(0), fragment_id, 0, 3, false);
    process_ipv4_fragment(&mut ctx, at(0), fragment_id, 1, 3, false);

    let mut buffer: Vec<u8> = vec![0; 1];
    let key = FragmentCacheKey::new(remote_ip(), local_ip(), fragment_id as u32);
    assert_eq!(
        reassemble_packet(&mut ctx, IpVersion::V4, &key, &mut buffer).unwrap_err(),
        FragmentReassemblyError::MissingFragments,
    );
}

#[test]
fn test_ipv4_reassemble_after_timeout() {
    let mut ctx = Ctx::new();
    let fragment_id = 5;

    // Make sure no timers are pending yet.
    assert_eq!(ctx.timers.len(), 0);

    // The first fragment schedules the group's timer.
    process_ipv4_fragment(&mut ctx, at(0), fragment_id, 0, 3, false);
    assert_eq!(ctx.timers.len(), 1);

    // A second fragment does not add or refresh timers.
    process_ipv4_fragment(&mut ctx, at(0), fragment_id, 1, 3, false);
    assert_eq!(ctx.timers.len(), 1);

    // The third fragment completes the group: 20 header + 24 body.
    let packet = make_fragment(fragment_id, 2, false, vec![17, 18, 19, 20, 21, 22, 23, 24]);
    let (key, packet_len) =
        expect_ready(process_fragment(&mut ctx, at(0), packet), fragment_id, 44);
    assert_eq!(ctx.timers.len(), 1);

    // Trigger the timer: the sixty seconds pass unused.
    assert_eq!(run_until(&mut ctx, at(60)), 1);
    assert_eq!(ctx.timers.len(), 0);

    // The group is gone, so reassembly is told the key is dead.
    let mut buffer: Vec<u8> = vec![0; packet_len];
    assert_eq!(
        reassemble_packet(&mut ctx, IpVersion::V4, &key, &mut buffer).unwrap_err(),
        FragmentReassemblyError::InvalidKey,
    );
}

#[test]
fn test_ipv4_overlapping_single_fragment() {
    let mut ctx = Ctx::new();
    let fragment_id = 5;

    // Process fragment 0, then a second fragment overlapping it entirely.
    process_ipv4_fragment(&mut ctx, at(0), fragment_id, 0, 3, false);
    let packet = make_fragment(fragment_id, 0, true, vec![9, 10, 11, 12, 13, 14, 15, 16]);
    expect_invalid(process_fragment(&mut ctx, at(0), packet));

    // The whole group was flushed.
    let key = FragmentCacheKey::new(remote_ip(), local_ip(), fragment_id as u32);
    let mut buffer: Vec<u8> = vec![0; 44];
    assert_eq!(
        reassemble_packet(&mut ctx, IpVersion::V4, &key, &mut buffer).unwrap_err(),
        FragmentReassemblyError::InvalidKey,
    );
}

#[test]
fn test_ipv4_fragment_not_multiple_of_offset_unit() {
    let mut ctx = Ctx::new();
    let fragment_id = 0;

    process_ipv4_fragment(&mut ctx, at(0), fragment_id, 0, 2, false);

    // A non-terminal fragment of 7 bytes is not a whole number of blocks.
    let body: Vec<u8> = (8..8 * 2 - 1).collect();
    let packet = make_fragment(fragment_id, 1, true, body);
    expect_invalid(process_fragment(&mut ctx, at(0), packet));

    // The same bytes as the terminal fragment are fine: 20 + 15 bytes.
    let body: Vec<u8> = (8..8 * 2 - 1).collect();
    let packet = make_fragment(fragment_id, 1, false, body);
    let (key, packet_len) =
        expect_ready(process_fragment(&mut ctx, at(0), packet), fragment_id, 35);
    let mut buffer: Vec<u8> = vec![0; packet_len];
    reassemble_packet(&mut ctx, IpVersion::V4, &key, &mut buffer).unwrap();
    let expected_body: Vec<u8> = (0..15).collect();
    assert_eq!(&buffer[20..], &expected_body[..]);
}

#[test]
fn test_ipv4_reassembly_with_multiple_intertwined_packets() {
    let mut ctx = Ctx::new();
    let fragment_id_0 = 5;
    let fragment_id_1 = 10;

    // Two packets' fragments arrive interleaved; both reassemble.
    process_ipv4_fragment(&mut ctx, at(0), fragment_id_0, 0, 3, false);
    process_ipv4_fragment(&mut ctx, at(0), fragment_id_1, 0, 3, false);
    process_ipv4_fragment(&mut ctx, at(0), fragment_id_0, 1, 3, false);
    process_ipv4_fragment(&mut ctx, at(0), fragment_id_1, 1, 3, false);
    process_ipv4_fragment(&mut ctx, at(0), fragment_id_0, 2, 3, true);
    process_ipv4_fragment(&mut ctx, at(0), fragment_id_1, 2, 3, true);
}

#[test]
fn test_ipv4_reassembly_timeout_with_multiple_intertwined_packets() {
    let mut ctx = Ctx::new();
    let fragment_id_0 = 5;
    let fragment_id_1 = 10;
    let fragment_id_2 = 15;

    // Three interleaved packets, all out of order; the first and third
    // complete in time, the second times out at sixty seconds.
    process_ipv4_fragment(&mut ctx, at(0), fragment_id_0, 0, 3, false);
    process_ipv4_fragment(&mut ctx, at(0), fragment_id_1, 2, 3, false);
    process_ipv4_fragment(&mut ctx, at(0), fragment_id_2, 2, 3, false);

    // At 30s.
    assert_eq!(run_until(&mut ctx, at(30)), 0);
    process_ipv4_fragment(&mut ctx, at(30), fragment_id_0, 2, 3, false);

    // At 40s.
    assert_eq!(run_until(&mut ctx, at(40)), 0);
    process_ipv4_fragment(&mut ctx, at(40), fragment_id_2, 1, 3, false);
    process_ipv4_fragment(&mut ctx, at(40), fragment_id_0, 1, 3, true);

    // At 50s.
    assert_eq!(run_until(&mut ctx, at(50)), 0);
    process_ipv4_fragment(&mut ctx, at(50), fragment_id_1, 0, 3, false);
    process_ipv4_fragment(&mut ctx, at(50), fragment_id_2, 0, 3, true);

    // At 60s the second packet's reassembly times out.
    assert_eq!(run_until(&mut ctx, at(60)), 1);
    assert_eq!(ctx.timers.len(), 0);

    // Its final fragment arrives too late: the group starts over.
    let packet = make_fragment(fragment_id_1, 1, true, vec![17, 18, 19, 20, 21, 22, 23, 24]);
    expect_need_more(process_fragment(&mut ctx, at(60), packet));
}

#[test]
fn test_reassemble_oversized_datagram() {
    let mut ctx = Ctx::new();
    let fragment_id = 1;

    // A datagram of 8192 full blocks plus a 20-byte header cannot carry
    // its length in an IPv4 total-length field.
    let body: Vec<u8> = vec![0xAB; 8191 * 8];
    let packet = make_fragment(fragment_id, 0, true, body);
    match process_fragment(&mut ctx, at(0), packet) {
        FragmentProcessingState::NeedMoreFragments => {}
        _ => panic!("expected `NeedMoreFragments`"),
    }
    let packet = make_fragment(fragment_id, 8191, false, vec![0xCD; 8]);
    let (key, packet_len) = match process_fragment(&mut ctx, at(0), packet) {
        FragmentProcessingState::Ready { key, packet_len } => (key, packet_len),
        _ => panic!("expected `Ready`"),
    };
    assert_eq!(packet_len, 20 + 8192 * 8);
    let mut buffer: Vec<u8> = vec![0; packet_len];
    assert_eq!(
        reassemble_packet(&mut ctx, IpVersion::V4, &key, &mut buffer).unwrap_err(),
        FragmentReassemblyError::PacketParsingError,
    );
    // The group was still consumed.
    assert_eq!(
        reassemble_packet(&mut ctx, IpVersion::V4, &key, &mut buffer).unwrap_err(),
        FragmentReassemblyError::InvalidKey,
    );
}

#[test]
fn test_ipv4_header_rewrite() {
    let mut ctx = Ctx::new();
    let fragment_id = 3;

    // One 8-byte fragment and one terminal 4-byte fragment.
    let packet = make_fragment(fragment_id, 0, true, (0..8).collect());
    expect_need_more(process_fragment(&mut ctx, at(0), packet));
    let packet = make_fragment(fragment_id, 1, false, (8..12).collect());
    let (key, packet_len) =
        expect_ready(process_fragment(&mut ctx, at(0), packet), fragment_id, 32);
    let mut buffer: Vec<u8> = vec![0; packet_len];
    reassemble_packet(&mut ctx, IpVersion::V4, &key, &mut buffer).unwrap();

    // Total length holds the datagram length, the fragmentation fields are
    // zero, and the header checksum verifies (RFC 1071: summing the whole
    // header, checksum included, gives 0xFFFF).
    assert_eq!(&buffer[2..4], &(32u16).to_be_bytes());
    assert_eq!(&buffer[4..8], &[0, 0, 0, 0]);
    let mut sum: u32 = 0;
    for pair in buffer[..20].chunks(2) {
        sum += u32::from(u16::from_be_bytes([pair[0], pair[1]]));
    }
    while sum > 0xFFFF {
        sum = (sum & 0xFFFF) + (sum >> 16);
    }
    assert_eq!(sum, 0xFFFF);
    assert_eq!(&buffer[20..], &[0, 1, 2, 3, 4, 5, 6, 7, 8, 9, 10, 11]);
}

#[test]
fn test_ipv4_fragment_beyond_offset_space() {
    let mut ctx = Ctx::new();
    let fragment_id = 9;

    // A fragment of two blocks starting at the last valid block would
    // overrun the 13-bit offset space: rejected, and no group or timer is
    // created for its key.
    let packet = make_fragment(fragment_id, 8191, true, vec![0; 16]);
    expect_invalid(process_fragment(&mut ctx, at(0), packet));
    assert_eq!(ctx.timers.len(), 0);
    let key = FragmentCacheKey::new(remote_ip(), local_ip(), fragment_id as u32);
    let mut buffer: Vec<u8> = vec![0; 44];
    assert_eq!(
        reassemble_packet(&mut ctx, IpVersion::V4, &key, &mut buffer).unwrap_err(),
        FragmentReassemblyError::InvalidKey,
    );

    // With a group already live, the same invalid fragment is a per-key
    // reset: the group and its timer are discarded.
    process_ipv4_fragment(&mut ctx, at(0), fragment_id, 0, 3, false);
    assert_eq!(ctx.timers.len(), 1);
    let packet = make_fragment(fragment_id, 8191, true, vec![0; 16]);
    expect_invalid(process_fragment(&mut ctx, at(0), packet));
    assert_eq!(ctx.timers.len(), 0);
    assert_eq!(
        reassemble_packet(&mut ctx, IpVersion::V4, &key, &mut buffer).unwrap_err(),
        FragmentReassemblyError::InvalidKey,
    );
}
