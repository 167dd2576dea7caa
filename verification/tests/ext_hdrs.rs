//! IPv6 extension-header helpers: Next Header validation, option parsing,
//! routing type 0 address lists, fragment header fields.

use netstack_ip::ext_hdrs::{
    is_valid_next_header, is_valid_next_header_upper_layer, parse_destination_options,
    parse_fragment, parse_hop_by_hop_options, parse_routing_type0_addresses,
    ExtensionHeaderOptionAction, ExtensionHeaderOptionContext,
    ExtensionHeaderOptionParsingError, FragmentData, Ipv6ExtensionHeaderData,
    Ipv6ExtensionHeaderParsingContext, Ipv6ExtensionHeaderParsingError,
};
use netstack_ip::ip::{IpProto, Ipv6Addr, Ipv6ExtHdrType};

fn ipv6_addr_from_bytes(bytes: [u8; 16]) -> Ipv6Addr {
    Ipv6Addr::new(u128::from_be_bytes(bytes))
}

#[test]
fn test_is_valid_next_header_upper_layer() {
    // Make sure upper layer protocols like tcp are valid.
    assert!(is_valid_next_header_upper_layer(IpProto::Tcp.number()));
    assert!(is_valid_next_header_upper_layer(IpProto::Tcp.number()));

    // Make sure upper layer protocol ICMP(v4) is not valid.
    assert!(!is_valid_next_header_upper_layer(IpProto::Icmp.number()));
    assert!(!is_valid_next_header_upper_layer(IpProto::Icmp.number()));

    // Make sure any other value is not valid.
    assert!(!is_valid_next_header(255, true));
    assert!(!is_valid_next_header(255, false));
}

#[test]
fn test_is_valid_next_header() {
    // Make sure Hop By Hop Options is only valid as the first Next Header
    // (in the fixed header).
    assert!(is_valid_next_header(Ipv6ExtHdrType::HopByHopOptions.number(), true));
    assert!(!is_valid_next_header(Ipv6ExtHdrType::HopByHopOptions.number(), false));

    // Make sure other extension headers (like routing) can be in any
    // Next Header.
    assert!(is_valid_next_header(Ipv6ExtHdrType::Routing.number(), true));
    assert!(is_valid_next_header(Ipv6ExtHdrType::Routing.number(), false));

    // Make sure upper layer protocols like tcp can be in any Next Header.
    assert!(is_valid_next_header(IpProto::Tcp.number(), true));
    assert!(is_valid_next_header(IpProto::Tcp.number(), false));

    // Make sure upper layer protocol ICMP(v4) cannot be in any Next Header.
    assert!(!is_valid_next_header(IpProto::Icmp.number(), true));
    assert!(!is_valid_next_header(IpProto::Icmp.number(), false));

    // Make sure any other value is not valid.
    assert!(!is_valid_next_header(255, true));
    assert!(!is_valid_next_header(255, false));
}

#[test]
fn test_hop_by_hop_options() {
    // Test parsing of Pad1 (treated as a no-op).
    let buffer = [0; 10];
    let mut context = ExtensionHeaderOptionContext::new();
    let options = parse_hop_by_hop_options(&buffer[..], &mut context).unwrap();
    assert_eq!(options.len(), 0);
    assert_eq!(context.bytes_parsed, 10);
    assert_eq!(context.options_parsed, 10);

    // Test parsing of Pad1 with PadN (treated as a no-op too).
    let buffer = [
        0,                            // Pad1
        1, 0,                         // Pad2
        1, 8, 0, 0, 0, 0, 0, 0, 0, 0, // Pad10
    ];
    let mut context = ExtensionHeaderOptionContext::new();
    let options = parse_hop_by_hop_options(&buffer[..], &mut context).unwrap();
    assert_eq!(options.len(), 0);
    assert_eq!(context.bytes_parsed, 13);
    assert_eq!(context.options_parsed, 3);

    // Test parsing with an unknown option type whose action is
    // skip/continue.
    let buffer = [
        0,                            // Pad1
        63, 1, 0,                     // Unrecognized option type, skippable
        1,  6, 0, 0, 0, 0, 0, 0,      // Pad8
    ];
    let mut context = ExtensionHeaderOptionContext::new();
    let options = parse_hop_by_hop_options(&buffer[..], &mut context).unwrap();
    assert_eq!(options.len(), 1);
    assert_eq!(options[0].action, ExtensionHeaderOptionAction::SkipAndContinue);
    assert_eq!(context.bytes_parsed, 12);
    assert_eq!(context.options_parsed, 3);
}

#[test]
fn test_hop_by_hop_options_err() {
    // Test parsing with the last two bytes missing.
    let buffer = [
        0,                            // Pad1
        1, 0,                         // Pad2
        1, 8, 0, 0, 0, 0, 0, 0,       // Pad10 (but missing 2 bytes)
    ];
    let mut context = ExtensionHeaderOptionContext::new();
    parse_hop_by_hop_options(&buffer[..], &mut context)
        .expect_err("Parsed successfully when we were short 2 by bytes");
    assert_eq!(context.bytes_parsed, 3);
    assert_eq!(context.options_parsed, 2);

    // Test parsing with an unknown option type whose action is discard.
    let buffer = [
        1,   1, 0,                    // Pad3
        127, 0,                       // Unrecognized option type: discard
        1,   6, 0, 0, 0, 0, 0, 0,     // Pad8
    ];
    let mut context = ExtensionHeaderOptionContext::new();
    assert_eq!(
        parse_hop_by_hop_options(&buffer[..], &mut context)
            .expect_err("Parsed successfully when we had an unrecognized option type"),
        ExtensionHeaderOptionParsingError::UnrecognizedOption {
            pointer: 3,
            action: ExtensionHeaderOptionAction::DiscardPacket,
        }
    );
    assert_eq!(context.bytes_parsed, 3);
    assert_eq!(context.options_parsed, 1);

    // Unknown option type: discard and send ICMP.
    let buffer = [
        1,   1, 0,                    // Pad3
        191, 0,                       // Unrecognized option type: discard
                                      // and send ICMP
        1,   6, 0, 0, 0, 0, 0, 0,     // Pad8
    ];
    let mut context = ExtensionHeaderOptionContext::new();
    assert_eq!(
        parse_hop_by_hop_options(&buffer[..], &mut context)
            .expect_err("Parsed successfully when we had an unrecognized option type"),
        ExtensionHeaderOptionParsingError::UnrecognizedOption {
            pointer: 3,
            action: ExtensionHeaderOptionAction::DiscardPacketSendICMP,
        }
    );
    assert_eq!(context.bytes_parsed, 3);
    assert_eq!(context.options_parsed, 1);

    // Unknown option type: discard and send ICMP unless multicast.
    let buffer = [
        1,   1, 0,                    // Pad3
        255, 0,                       // Unrecognized option type: discard
                                      // and send ICMP if not multicast
        1,   6, 0, 0, 0, 0, 0, 0,     // Pad8
    ];
    let mut context = ExtensionHeaderOptionContext::new();
    assert_eq!(
        parse_hop_by_hop_options(&buffer[..], &mut context)
            .expect_err("Parsed successfully when we had an unrecognized option type"),
        ExtensionHeaderOptionParsingError::UnrecognizedOption {
            pointer: 3,
            action: ExtensionHeaderOptionAction::DiscardPacketSendICMPNoMulticast,
        }
    );
    assert_eq!(context.bytes_parsed, 3);
    assert_eq!(context.options_parsed, 1);
}

#[test]
fn test_routing_type0_limited_records() {
    // Test an empty buffer.
    let buffer = [0; 0];
    let addresses = parse_routing_type0_addresses(&buffer[..], 0).unwrap();
    assert_eq!(addresses.len(), 0);

    // Test a single address.
    let buffer = [0, 1, 2, 3, 4, 5, 6, 7, 8, 9, 10, 11, 12, 13, 14, 15];
    let addresses = parse_routing_type0_addresses(&buffer[..], 1).unwrap();
    assert_eq!(addresses.len(), 1);
    assert_eq!(
        addresses[0],
        ipv6_addr_from_bytes([0, 1, 2, 3, 4, 5, 6, 7, 8, 9, 10, 11, 12, 13, 14, 15])
    );

    // Test multiple addresses.
    let buffer = [
        0,  1,  2,  3,  4,  5,  6,  7,  8,  9,  10, 11, 12, 13, 14, 15,
        16, 17, 18, 19, 20, 21, 22, 23, 24, 25, 26, 27, 28, 29, 30, 31,
        32, 33, 34, 35, 36, 37, 38, 39, 40, 41, 42, 43, 44, 45, 46, 47,
    ];
    let addresses = parse_routing_type0_addresses(&buffer[..], 3).unwrap();
    assert_eq!(addresses.len(), 3);
    assert_eq!(
        addresses[0],
        ipv6_addr_from_bytes([0, 1, 2, 3, 4, 5, 6, 7, 8, 9, 10, 11, 12, 13, 14, 15])
    );
    assert_eq!(
        addresses[1],
        ipv6_addr_from_bytes([16, 17, 18, 19, 20, 21, 22, 23, 24, 25, 26, 27, 28, 29, 30, 31])
    );
    assert_eq!(
        addresses[2],
        ipv6_addr_from_bytes([32, 33, 34, 35, 36, 37, 38, 39, 40, 41, 42, 43, 44, 45, 46, 47])
    );
}

#[test]
fn test_routing_type0_limited_records_err() {
    // Test a single address with not enough bytes.
    let buffer = [0, 1, 2, 3, 4, 5, 6, 7, 8, 9, 10, 11, 12, 13];
    parse_routing_type0_addresses(&buffer[..], 1)
        .expect_err("Parsed successfully when we were misisng 2 bytes");

    // Test multiple addresses with not enough bytes for the last one.
    let buffer = [
        0,  1,  2,  3,  4,  5,  6,  7,  8,  9,  10, 11, 12, 13, 14, 15,
        16, 17, 18, 19, 20, 21, 22, 23, 24, 25, 26, 27, 28, 29, 30, 31,
        32, 33, 34, 35, 36, 37, 38, 39, 40, 41, 42, 43, 44, 45,
    ];
    parse_routing_type0_addresses(&buffer[..], 3)
        .expect_err("Parsed successfully when we were misisng 2 bytes");

    // Test multiple addresses with a limit above what the bytes hold.
    let buffer = [
        0,  1,  2,  3,  4,  5,  6,  7,  8,  9,  10, 11, 12, 13, 14, 15,
        16, 17, 18, 19, 20, 21, 22, 23, 24, 25, 26, 27, 28, 29, 30, 31,
        32, 33, 34, 35, 36, 37, 38, 39, 40, 41, 42, 43, 44, 45, 46, 47
    ];
    parse_routing_type0_addresses(&buffer[..], 4)
        .expect_err("Parsed 3 addresses succesfully when exact limit was set to 4");
}

#[test]
fn test_destination_options() {
    // Test parsing of Pad1 (treated as a no-op).
    let buffer = [0; 10];
    let mut context = ExtensionHeaderOptionContext::new();
    let options = parse_destination_options(&buffer[..], &mut context).unwrap();
    assert_eq!(options.len(), 0);
    assert_eq!(context.bytes_parsed, 10);
    assert_eq!(context.options_parsed, 10);

    // Test parsing of Pad1 with PadN (treated as a no-op too).
    let buffer = [
        0,                            // Pad1
        1, 0,                         // Pad2
        1, 8, 0, 0, 0, 0, 0, 0, 0, 0, // Pad10
    ];
    let mut context = ExtensionHeaderOptionContext::new();
    let options = parse_destination_options(&buffer[..], &mut context).unwrap();
    assert_eq!(options.len(), 0);
    assert_eq!(context.bytes_parsed, 13);
    assert_eq!(context.options_parsed, 3);

    // Test parsing with an unknown option type whose action is
    // skip/continue.
    let buffer = [
        0,                            // Pad1
        63, 1, 0,                     // Unrecognized option type, skippable
        1,  6, 0, 0, 0, 0, 0, 0,      // Pad8
    ];
    let mut context = ExtensionHeaderOptionContext::new();
    let options = parse_destination_options(&buffer[..], &mut context).unwrap();
    assert_eq!(options.len(), 1);
    assert_eq!(options[0].action, ExtensionHeaderOptionAction::SkipAndContinue);
    assert_eq!(context.bytes_parsed, 12);
    assert_eq!(context.options_parsed, 3);
}

#[test]
fn test_destination_options_err() {
    // Test parsing with the last two bytes missing.
    let buffer = [
        0,                            // Pad1
        1, 0,                         // Pad2
        1, 8, 0, 0, 0, 0, 0, 0,       // Pad10 (but missing 2 bytes)
    ];
    let mut context = ExtensionHeaderOptionContext::new();
    parse_destination_options(&buffer[..], &mut context)
        .expect_err("Parsed successfully when we were short 2 by bytes");
    assert_eq!(context.bytes_parsed, 3);
    assert_eq!(context.options_parsed, 2);

    // Test parsing with an unknown option type whose action is discard.
    let buffer = [
        1,   1, 0,                    // Pad3
        127, 0,                       // Unrecognized option type: discard
        1,   6, 0, 0, 0, 0, 0, 0,     // Pad8
    ];
    let mut context = ExtensionHeaderOptionContext::new();
    assert_eq!(
        parse_destination_options(&buffer[..], &mut context)
            .expect_err("Parsed successfully when we had an unrecognized option type"),
        ExtensionHeaderOptionParsingError::UnrecognizedOption {
            pointer: 3,
            action: ExtensionHeaderOptionAction::DiscardPacket,
        }
    );
    assert_eq!(context.bytes_parsed, 3);
    assert_eq!(context.options_parsed, 1);

    // Unknown option type: discard and send ICMP.
    let buffer = [
        1,   1, 0,                    // Pad3
        191, 0,                       // Unrecognized option type: discard
                                      // and send ICMP
        1,   6, 0, 0, 0, 0, 0, 0,     // Pad8
    ];
    let mut context = ExtensionHeaderOptionContext::new();
    assert_eq!(
        parse_destination_options(&buffer[..], &mut context)
            .expect_err("Parsed successfully when we had an unrecognized option type"),
        ExtensionHeaderOptionParsingError::UnrecognizedOption {
            pointer: 3,
            action: ExtensionHeaderOptionAction::DiscardPacketSendICMP,
        }
    );
    assert_eq!(context.bytes_parsed, 3);
    assert_eq!(context.options_parsed, 1);

    // Unknown option type: discard and send ICMP unless multicast.
    let buffer = [
        1,   1, 0,                    // Pad3
        255, 0,                       // Unrecognized option type: discard
                                      // and send ICMP if not multicast
        1,   6, 0, 0, 0, 0, 0, 0,     // Pad8
    ];
    let mut context = ExtensionHeaderOptionContext::new();
    assert_eq!(
        parse_destination_options(&buffer[..], &mut context)
            .expect_err("Parsed successfully when we had an unrecognized option type"),
        ExtensionHeaderOptionParsingError::UnrecognizedOption {
            pointer: 3,
            action: ExtensionHeaderOptionAction::DiscardPacketSendICMPNoMulticast,
        }
    );
    assert_eq!(context.bytes_parsed, 3);
    assert_eq!(context.options_parsed, 1);
}

#[test]
fn test_fragment_data_fields() {
    // Fragment offset 5063, more-fragments set, identification 3266246449
    // (the fragment header bytes 0x9E3F hold offset and flags).
    let fragment_data = FragmentData { bytes: vec![0x9E, 0x3F, 0xC2, 0xAE, 0xF7, 0x31] };
    assert_eq!(fragment_data.fragment_offset(), 5063);
    assert!(fragment_data.m_flag());
    assert_eq!(fragment_data.identification(), 3266246449);

    // A cleared more-fragments flag and zero offset.
    let fragment_data = FragmentData { bytes: vec![0, 0, 0, 0, 0, 1] };
    assert_eq!(fragment_data.fragment_offset(), 0);
    assert!(!fragment_data.m_flag());
    assert_eq!(fragment_data.identification(), 1);
}

#[test]
fn test_fragment_ext_hdr() {
    // Test parsing of just a single Fragment extension header.
    let mut context = Ipv6ExtensionHeaderParsingContext::new(Ipv6ExtHdrType::Fragment.number());
    let frag_offset_res_m_flag: u16 = (5063 << 3) | 1;
    let identification: u32 = 3266246449;
    let buffer = [
        IpProto::Tcp.number(),                 // Next Header
        0,                                     // Reserved
        (frag_offset_res_m_flag >> 8) as u8,   // Fragment Offset MSB
        (frag_offset_res_m_flag & 0xFF) as u8, // Fragment Offset LS5bits w/ Res w/ M Flag
        // Identification
        (identification >> 24) as u8,
        ((identification >> 16) & 0xFF) as u8,
        ((identification >> 8) & 0xFF) as u8,
        (identification & 0xFF) as u8,
    ];
    let ext_hdr = parse_fragment(&buffer[..], &mut context).unwrap();
    assert_eq!(ext_hdr.next_header, IpProto::Tcp.number());
    match ext_hdr.data() {
        Ipv6ExtensionHeaderData::Fragment { fragment_data } => {
            assert_eq!(fragment_data.fragment_offset(), 5063);
            assert_eq!(fragment_data.m_flag(), true);
            assert_eq!(fragment_data.identification(), 3266246449);
        }
        _ => panic!("Should have matched Fragment"),
    }
    assert_eq!(context.next_header, IpProto::Tcp.number());
    assert_eq!(context.headers_parsed, 1);
    assert_eq!(context.bytes_parsed, 8);
}

#[test]
fn test_fragment_ext_hdr_err() {
    // Test parsing of a single Fragment extension header with an invalid
    // Next Header.
    let mut context = Ipv6ExtensionHeaderParsingContext::new(Ipv6ExtHdrType::Fragment.number());
    let frag_offset_res_m_flag: u16 = (5063 << 3) | 1;
    let identification: u32 = 3266246449;
    let buffer = [
        255,                                   // Next Header (invalid)
        0,                                     // Reserved
        (frag_offset_res_m_flag >> 8) as u8,   // Fragment Offset MSB
        (frag_offset_res_m_flag & 0xFF) as u8, // Fragment Offset LS5bits w/ Res w/ M Flag
        // Identification
        (identification >> 24) as u8,
        ((identification >> 16) & 0xFF) as u8,
        ((identification >> 8) & 0xFF) as u8,
        (identification & 0xFF) as u8,
    ];
    let error = parse_fragment(&buffer[..], &mut context)
        .expect_err("Parsed succesfully when the next header was invalid");
    match error {
        Ipv6ExtensionHeaderParsingError::UnrecognizedNextHeader {
            pointer,
            must_send_icmp,
            header_len,
        } => {
            assert_eq!(pointer, 0);
            assert!(!must_send_icmp);
            assert_eq!(header_len, 0);
        }
        _ => panic!("Should have matched with UnrecognizedNextHeader"),
    }
}
