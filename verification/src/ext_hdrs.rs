//! Parsing of IPv6 extension-header options and related header data.
//!
//! The reassembly core consumes only the fragmentation triple, but the
//! surrounding stack validates Next Header values, walks the options of
//! Hop-by-Hop Options and Destination Options headers, and reads the fixed
//! fields of Routing and Fragment headers. Those pieces live here, as plain
//! functions on bytes.

use vstd::prelude::*;

use crate::ip::{IpProto, Ipv6Addr, Ipv6ExtHdrType};

verus! {

/// Make sure a Next Header value is a valid upper-layer protocol for an
/// IPv6 packet. ICMP(v4) is deliberately not accepted.
pub open spec fn is_valid_next_header_upper_layer_spec(next_header: u8) -> bool {
    match IpProto::from_byte_spec(next_header) {
        IpProto::Igmp => true,
        IpProto::Tcp => true,
        IpProto::Udp => true,
        IpProto::Icmpv6 => true,
        IpProto::NoNextHeader => true,
        _ => false,
    }
}

/// Make sure a Next Header value is a valid upper-layer protocol for an
/// IPv6 packet. ICMP(v4) is deliberately not accepted.
pub fn is_valid_next_header_upper_layer(next_header: u8) -> (r: bool)
    ensures
        r == is_valid_next_header_upper_layer_spec(next_header),
{
    match IpProto::from_byte(next_header) {
        IpProto::Igmp => true,
        IpProto::Tcp => true,
        IpProto::Udp => true,
        IpProto::Icmpv6 => true,
        IpProto::NoNextHeader => true,
        _ => false,
    }
}

/// Make sure a Next Header value is valid: an extension header type or an
/// upper-layer protocol. A Hop-by-Hop Options header may only follow the
/// fixed header, so its number is accepted only when `for_fixed_header`.
pub open spec fn is_valid_next_header_spec(next_header: u8, for_fixed_header: bool) -> bool {
    match Ipv6ExtHdrType::from_byte_spec(next_header) {
        Ipv6ExtHdrType::HopByHopOptions => for_fixed_header,
        Ipv6ExtHdrType::Other(b) => is_valid_next_header_upper_layer_spec(b),
        _ => true,
    }
}

/// Make sure a Next Header value is valid: an extension header type or an
/// upper-layer protocol. A Hop-by-Hop Options header may only follow the
/// fixed header, so its number is accepted only when `for_fixed_header`.
pub fn is_valid_next_header(next_header: u8, for_fixed_header: bool) -> (r: bool)
    ensures
        r == is_valid_next_header_spec(next_header, for_fixed_header),
{
    match Ipv6ExtHdrType::from_byte(next_header) {
        Ipv6ExtHdrType::HopByHopOptions => for_fixed_header,
        Ipv6ExtHdrType::Other(b) => is_valid_next_header_upper_layer(b),
        _ => true,
    }
}

/// Implements the validation shared by all extension-header parsers.
pub struct Ipv6ExtensionHeaderImpl;

impl Ipv6ExtensionHeaderImpl {
    /// Make sure a Next Header value inside an extension header is valid;
    /// a Hop-by-Hop Options header can never come this late.
    pub fn valid_next_header(next_header: u8) -> (r: bool)
        ensures
            r == is_valid_next_header_spec(next_header, false),
    {
        is_valid_next_header(next_header, false)
    }
}

/// Action to take when an unrecognized option type is encountered (RFC 8200
/// section 4.2): the two high bits of the option type.
#[derive(Clone, Copy, Debug, PartialEq, Eq, Structural)]
pub enum ExtensionHeaderOptionAction {
    /// Skip over the option and continue processing the header.
    SkipAndContinue,
    /// Just discard the packet.
    DiscardPacket,
    /// Discard the packet and always send an ICMP parameter problem.
    DiscardPacketSendICMP,
    /// Discard the packet and send an ICMP parameter problem unless the
    /// destination was a multicast address.
    DiscardPacketSendICMPNoMulticast,
}

impl ExtensionHeaderOptionAction {
    /// The action encoded by the two-bit field `value`.
    pub open spec fn from_bits_spec(value: u8) -> ExtensionHeaderOptionAction {
        if value == 0 {
            ExtensionHeaderOptionAction::SkipAndContinue
        } else if value == 1 {
            ExtensionHeaderOptionAction::DiscardPacket
        } else if value == 2 {
            ExtensionHeaderOptionAction::DiscardPacketSendICMP
        } else {
            ExtensionHeaderOptionAction::DiscardPacketSendICMPNoMulticast
        }
    }

    /// Decode a two-bit action field.
    pub fn from_bits(value: u8) -> (r: ExtensionHeaderOptionAction)
        requires
            value < 4,
        ensures
            r == ExtensionHeaderOptionAction::from_bits_spec(value),
    {
        if value == 0 {
            ExtensionHeaderOptionAction::SkipAndContinue
        } else if value == 1 {
            ExtensionHeaderOptionAction::DiscardPacket
        } else if value == 2 {
            ExtensionHeaderOptionAction::DiscardPacketSendICMP
        } else {
            ExtensionHeaderOptionAction::DiscardPacketSendICMPNoMulticast
        }
    }

    /// The two-bit encoding of this action.
    pub fn to_bits(self) -> (r: u8)
        ensures
            ExtensionHeaderOptionAction::from_bits_spec(r) == self,
            r < 4,
    {
        match self {
            ExtensionHeaderOptionAction::SkipAndContinue => 0,
            ExtensionHeaderOptionAction::DiscardPacket => 1,
            ExtensionHeaderOptionAction::DiscardPacketSendICMP => 2,
            ExtensionHeaderOptionAction::DiscardPacketSendICMPNoMulticast => 3,
        }
    }
}

/// Option data this stack does not recognize, kept as raw bytes.
#[derive(Debug)]
pub struct ExtensionHeaderOptionData {
    /// The option type's low five bits.
    pub kind: u8,
    /// The option data length in bytes.
    pub len: u8,
    /// The option data itself.
    pub data: Vec<u8>,
}

/// One parsed extension-header option.
#[derive(Debug)]
pub struct ExtensionHeaderOption {
    /// Action to take if the option type is unrecognized.
    pub action: ExtensionHeaderOptionAction,
    /// Whether the option data may change en route.
    pub mutable: bool,
    /// The option data.
    pub data: ExtensionHeaderOptionData,
}

/// The mathematical content of one parsed option.
pub ghost struct ExtOptView {
    pub action: ExtensionHeaderOptionAction,
    pub mutable: bool,
    pub kind: u8,
    pub data: Seq<u8>,
}

impl View for ExtensionHeaderOption {
    type V = ExtOptView;

    open spec fn view(&self) -> ExtOptView {
        ExtOptView {
            action: self.action,
            mutable: self.mutable,
            kind: self.data.kind,
            data: self.data.data@,
        }
    }
}

/// Possible errors when parsing extension header options.
#[derive(Clone, Copy, Debug, PartialEq, Eq, Structural)]
pub enum ExtensionHeaderOptionParsingError {
    UnrecognizedOption { pointer: u32, action: ExtensionHeaderOptionAction },
    BufferExhausted,
}

/// Context that accumulates across the options of one extension header.
pub struct ExtensionHeaderOptionContext {
    /// Number of options parsed so far.
    pub options_parsed: usize,
    /// Bytes of successfully parsed options so far.
    pub bytes_parsed: usize,
}

impl ExtensionHeaderOptionContext {
    /// A fresh context: nothing parsed yet.
    pub fn new() -> (r: ExtensionHeaderOptionContext)
        ensures
            r.options_parsed == 0,
            r.bytes_parsed == 0,
    {
        ExtensionHeaderOptionContext { options_parsed: 0, bytes_parsed: 0 }
    }
}

/// What parsing a run of options yields.
pub ghost enum OptionsOutcome {
    /// Every byte parsed: the kept options, options seen, bytes consumed.
    Parsed(Seq<ExtOptView>, int, int),
    /// Parsing stopped: options seen, bytes of whole options consumed, and
    /// the error.
    Failed(int, int, ExtensionHeaderOptionParsingError),
}

/// The options grammar of RFC 8200 section 4.2, read from `pos`, with
/// `acc` options kept and `nopts` options seen so far. Pad1 and PadN are
/// consumed silently; an unrecognized type is kept when its action allows
/// skipping and fails the parse otherwise.
pub open spec fn options_spec(data: Seq<u8>, pos: int, acc: Seq<ExtOptView>, nopts: int) -> OptionsOutcome
    decreases data.len() - pos,
{
    if pos < 0 || pos >= data.len() {
        OptionsOutcome::Parsed(acc, nopts, pos)
    } else {
        let kind0 = data[pos];
        let action_bits = (kind0 / 64) % 4;
        let mutable = ((kind0 / 32) % 2) == 1;
        let kind = kind0 % 32;
        if kind == 0 {
            // Pad1: a bare padding byte.
            options_spec(data, pos + 1, acc, nopts + 1)
        } else if pos + 1 >= data.len() {
            OptionsOutcome::Failed(nopts, pos, ExtensionHeaderOptionParsingError::BufferExhausted)
        } else {
            let l = data[pos + 1] as int;
            if pos + 2 + l > data.len() {
                OptionsOutcome::Failed(
                    nopts,
                    pos,
                    ExtensionHeaderOptionParsingError::BufferExhausted,
                )
            } else if kind == 1 {
                // PadN: padding bytes.
                options_spec(data, pos + 2 + l, acc, nopts + 1)
            } else if action_bits == 0 {
                options_spec(
                    data,
                    pos + 2 + l,
                    acc.push(
                        ExtOptView {
                            action: ExtensionHeaderOptionAction::SkipAndContinue,
                            mutable,
                            kind,
                            data: data.subrange(pos + 2, pos + 2 + l),
                        },
                    ),
                    nopts + 1,
                )
            } else {
                OptionsOutcome::Failed(
                    nopts,
                    pos,
                    ExtensionHeaderOptionParsingError::UnrecognizedOption {
                        pointer: pos as u32,
                        action: ExtensionHeaderOptionAction::from_bits_spec(action_bits),
                    },
                )
            }
        }
    }
}

/// Parse a run of extension-header options from `data`.
///
/// On success every byte of `data` was consumed and the kept options are
/// returned; the context counts every option seen (padding included) and
/// every byte consumed. On failure the context stops at the last whole
/// option, and the error points at the offending one.
pub fn parse_options(data: &[u8], context: &mut ExtensionHeaderOptionContext) -> (r: Result<
    Vec<ExtensionHeaderOption>,
    ExtensionHeaderOptionParsingError,
>)
    requires
        old(context).options_parsed == 0,
        old(context).bytes_parsed == 0,
        data@.len() <= 0xFFFFFFFF,
    ensures
        (match options_spec(data@, 0, Seq::empty(), 0) {
            OptionsOutcome::Parsed(opts, n, b) => {
                &&& (match r {
                    Ok(v) => v@.map_values(|o: ExtensionHeaderOption| o@) == opts,
                    Err(_) => false,
                })
                &&& final(context).options_parsed == n
                &&& final(context).bytes_parsed == b
            },
            OptionsOutcome::Failed(n, b, e) => {
                &&& r == Err::<Vec<ExtensionHeaderOption>, ExtensionHeaderOptionParsingError>(e)
                &&& final(context).options_parsed == n
                &&& final(context).bytes_parsed == b
            },
        }),
{
    let ghost whole = options_spec(data@, 0, Seq::empty(), 0);
    let mut options: Vec<ExtensionHeaderOption> = Vec::new();
    let mut pos: usize = 0;
    proof {
        assert(options@.map_values(|o: ExtensionHeaderOption| o@) =~= Seq::<ExtOptView>::empty());
    }
    while pos < data.len()
        invariant
            pos <= data@.len(),
            data@.len() <= 0xFFFFFFFF,
            context.options_parsed <= pos,
            context.bytes_parsed == pos,
            whole == options_spec(
                data@,
                pos as int,
                options@.map_values(|o: ExtensionHeaderOption| o@),
                context.options_parsed as int,
            ),
            whole == options_spec(data@, 0, Seq::empty(), 0),
        decreases data@.len() - pos,
    {
        let ghost acc0 = options@.map_values(|o: ExtensionHeaderOption| o@);
        let kind0 = data[pos];
        let action_bits = (kind0 / 64) % 4;
        let mutable = ((kind0 / 32) % 2) == 1;
        let kind = kind0 % 32;

        // Pad1 is a single padding byte.
        if kind == 0 {
            context.options_parsed = context.options_parsed + 1;
            context.bytes_parsed = context.bytes_parsed + 1;
            pos = pos + 1;
            continue;
        }

        if pos + 1 >= data.len() {
            return Err(ExtensionHeaderOptionParsingError::BufferExhausted);
        }
        let l = data[pos + 1] as usize;
        if l > data.len() - (pos + 2) || pos + 2 > data.len() {
            return Err(ExtensionHeaderOptionParsingError::BufferExhausted);
        }

        // PadN is padding too.
        if kind == 1 {
            context.options_parsed = context.options_parsed + 1;
            context.bytes_parsed = context.bytes_parsed + 2 + l;
            pos = pos + 2 + l;
            continue;
        }

        if action_bits != 0 {
            // An unrecognized option type whose action forbids skipping.
            return Err(
                ExtensionHeaderOptionParsingError::UnrecognizedOption {
                    pointer: pos as u32,
                    action: ExtensionHeaderOptionAction::from_bits(action_bits),
                },
            );
        }

        // Keep the unrecognized option: its action allows skipping.
        let mut body: Vec<u8> = Vec::new();
        let mut j: usize = 0;
        while j < l
            invariant
                j <= l,
                pos + 2 + l <= data@.len(),
                data@.len() <= 0xFFFFFFFF,
                body@ =~= data@.subrange(pos + 2, pos + 2 + j),
            decreases l - j,
        {
            body.push(data[pos + 2 + j]);
            j = j + 1;
        }
        let opt = ExtensionHeaderOption {
            action: ExtensionHeaderOptionAction::SkipAndContinue,
            mutable,
            data: ExtensionHeaderOptionData { kind, len: l as u8, data: body },
        };
        proof {
            assert(options@.push(opt).map_values(|o: ExtensionHeaderOption| o@) =~= acc0.push(
                opt@,
            ));
        }
        options.push(opt);
        context.options_parsed = context.options_parsed + 1;
        context.bytes_parsed = context.bytes_parsed + 2 + l;
        pos = pos + 2 + l;
    }
    Ok(options)
}

/// Parse the options of a Hop-by-Hop Options extension header.
///
/// This stack recognizes no specific hop-by-hop options; see
/// [`parse_options`] for how padding and unrecognized types are handled.
pub fn parse_hop_by_hop_options(data: &[u8], context: &mut ExtensionHeaderOptionContext) -> (r:
    Result<Vec<ExtensionHeaderOption>, ExtensionHeaderOptionParsingError>)
    requires
        old(context).options_parsed == 0,
        old(context).bytes_parsed == 0,
        data@.len() <= 0xFFFFFFFF,
    ensures
        (match options_spec(data@, 0, Seq::empty(), 0) {
            OptionsOutcome::Parsed(opts, n, b) => {
                &&& (match r {
                    Ok(v) => v@.map_values(|o: ExtensionHeaderOption| o@) == opts,
                    Err(_) => false,
                })
                &&& final(context).options_parsed == n
                &&& final(context).bytes_parsed == b
            },
            OptionsOutcome::Failed(n, b, e) => {
                &&& r == Err::<Vec<ExtensionHeaderOption>, ExtensionHeaderOptionParsingError>(e)
                &&& final(context).options_parsed == n
                &&& final(context).bytes_parsed == b
            },
        }),
{
    parse_options(data, context)
}

/// Parse the options of a Destination Options extension header.
///
/// This stack recognizes no specific destination options; see
/// [`parse_options`] for how padding and unrecognized types are handled.
pub fn parse_destination_options(data: &[u8], context: &mut ExtensionHeaderOptionContext) -> (r:
    Result<Vec<ExtensionHeaderOption>, ExtensionHeaderOptionParsingError>)
    requires
        old(context).options_parsed == 0,
        old(context).bytes_parsed == 0,
        data@.len() <= 0xFFFFFFFF,
    ensures
        (match options_spec(data@, 0, Seq::empty(), 0) {
            OptionsOutcome::Parsed(opts, n, b) => {
                &&& (match r {
                    Ok(v) => v@.map_values(|o: ExtensionHeaderOption| o@) == opts,
                    Err(_) => false,
                })
                &&& final(context).options_parsed == n
                &&& final(context).bytes_parsed == b
            },
            OptionsOutcome::Failed(n, b, e) => {
                &&& r == Err::<Vec<ExtensionHeaderOption>, ExtensionHeaderOptionParsingError>(e)
                &&& final(context).options_parsed == n
                &&& final(context).bytes_parsed == b
            },
        }),
{
    parse_options(data, context)
}


/// Possible errors when parsing IPv6 extension headers. `pointer` is the
/// offset from the beginning of the first extension header to the error,
/// `must_send_icmp` whether an ICMP response is required, and `header_len`
/// the bytes of successfully parsed headers before the error.
#[derive(Clone, Copy, Debug, PartialEq, Eq, Structural)]
pub enum Ipv6ExtensionHeaderParsingError {
    ErroneousHeaderField { pointer: u32, must_send_icmp: bool, header_len: usize },
    UnrecognizedNextHeader { pointer: u32, must_send_icmp: bool, header_len: usize },
    UnrecognizedOption {
        pointer: u32,
        must_send_icmp: bool,
        header_len: usize,
        action: ExtensionHeaderOptionAction,
    },
    BufferExhausted,
    MalformedData,
}

/// Convert an option-level parsing error to a header-level one. `offset`
/// is where the failing options start, relative to the first extension
/// header; `header_len` is how many header bytes were good.
pub fn ext_hdr_opt_err_to_ext_hdr_err(
    offset: u32,
    header_len: usize,
    err: ExtensionHeaderOptionParsingError,
) -> (r: Ipv6ExtensionHeaderParsingError)
    requires
        (match err {
            ExtensionHeaderOptionParsingError::UnrecognizedOption { pointer, .. } => offset
                + pointer <= u32::MAX,
            ExtensionHeaderOptionParsingError::BufferExhausted => true,
        }),
    ensures
        r == (match err {
            ExtensionHeaderOptionParsingError::UnrecognizedOption { pointer, action } => (
            Ipv6ExtensionHeaderParsingError::UnrecognizedOption {
                pointer: (offset + pointer) as u32,
                must_send_icmp: true,
                header_len,
                action,
            }),
            ExtensionHeaderOptionParsingError::BufferExhausted => Ipv6ExtensionHeaderParsingError::BufferExhausted,
        }),
{
    match err {
        ExtensionHeaderOptionParsingError::UnrecognizedOption { pointer, action } => {
            Ipv6ExtensionHeaderParsingError::UnrecognizedOption {
                pointer: offset + pointer,
                must_send_icmp: true,
                header_len,
                action,
            }
        },
        ExtensionHeaderOptionParsingError::BufferExhausted => {
            Ipv6ExtensionHeaderParsingError::BufferExhausted
        },
    }
}

/// Context that gets passed along while parsing a chain of IPv6 extension
/// headers.
pub struct Ipv6ExtensionHeaderParsingContext {
    /// The next expected header type.
    pub next_header: u8,
    /// How many extension headers were parsed.
    pub headers_parsed: usize,
    /// Bytes of successfully parsed extension headers.
    pub bytes_parsed: usize,
}

impl Ipv6ExtensionHeaderParsingContext {
    /// A fresh context expecting `next_header` first.
    pub fn new(next_header: u8) -> (r: Ipv6ExtensionHeaderParsingContext)
        ensures
            r.next_header == next_header,
            r.headers_parsed == 0,
            r.bytes_parsed == 0,
    {
        Ipv6ExtensionHeaderParsingContext { next_header, headers_parsed: 0, bytes_parsed: 0 }
    }
}

/// Routing extension header data: its two fixed bytes (routing type and
/// segments left) and the type-specific data.
#[derive(Debug)]
pub struct RoutingData {
    /// The routing type and segments-left bytes.
    pub bytes: Vec<u8>,
    /// The data following them, by routing type.
    pub type_specific_data: RoutingTypeSpecificData,
}

/// Routing-type-specific data. Only routing type 0 is recognized.
#[derive(Debug)]
pub enum RoutingTypeSpecificData {
    RoutingType0 { addresses: Vec<Ipv6Addr> },
}

impl RoutingData {
    /// The two fixed bytes are present.
    pub open spec fn wf(&self) -> bool {
        self.bytes@.len() == 2
    }

    /// The header's routing type.
    pub fn routing_type(&self) -> (r: u8)
        requires
            self.wf(),
        ensures
            r == self.bytes@[0],
    {
        self.bytes[0]
    }

    /// How many listed segments are still to be visited.
    pub fn segments_left(&self) -> (r: u8)
        requires
            self.wf(),
        ensures
            r == self.bytes@[1],
    {
        self.bytes[1]
    }

    /// The routing-type-specific data.
    pub fn type_specific_data(&self) -> (r: &RoutingTypeSpecificData)
        ensures
            r == &self.type_specific_data,
    {
        &self.type_specific_data
    }
}

/// The big-endian integer a byte string denotes.
pub open spec fn be_bytes_value(s: Seq<u8>) -> int
    decreases s.len(),
{
    if s.len() == 0 {
        0
    } else {
        be_bytes_value(s.drop_last()) * 256 + s.last()
    }
}

/// Fragment extension header data: the six bytes following the Next Header
/// and Reserved fields (RFC 8200 section 4.5): thirteen bits of fragment
/// offset, two reserved bits, the more-fragments flag, and the 32-bit
/// identification value.
#[derive(Debug)]
pub struct FragmentData {
    /// The six data bytes.
    pub bytes: Vec<u8>,
}

impl FragmentData {
    /// The six data bytes are present.
    pub open spec fn wf(&self) -> bool {
        self.bytes@.len() == 6
    }

    /// The fragment offset, in 8-octet blocks.
    pub fn fragment_offset(&self) -> (r: u16)
        requires
            self.wf(),
        ensures
            r == (self.bytes@[0] as int) * 32 + (self.bytes@[1] as int) / 8,
    {
        ((self.bytes[0] as u16) * 32) + ((self.bytes[1] as u16) / 8)
    }

    /// The more-fragments flag.
    pub fn m_flag(&self) -> (r: bool)
        requires
            self.wf(),
        ensures
            r == ((self.bytes@[1] as int) % 2 == 1),
    {
        (self.bytes[1] % 2) == 1
    }

    /// The fragment identification value.
    pub fn identification(&self) -> (r: u32)
        requires
            self.wf(),
        ensures
            r == be_bytes_value(self.bytes@.subrange(2, 6)),
    {
        proof {
            let b = self.bytes@.subrange(2int, 6int);
            assert(b.drop_last() =~= self.bytes@.subrange(2, 5));
            assert(b.drop_last().drop_last() =~= self.bytes@.subrange(2, 4));
            assert(b.drop_last().drop_last().drop_last() =~= self.bytes@.subrange(2, 3));
            assert(b.drop_last().drop_last().drop_last().drop_last() =~= self.bytes@.subrange(
                2,
                2,
            ));
            assert(be_bytes_value(self.bytes@.subrange(2int, 2int)) == 0);
            assert(self.bytes@.subrange(2int, 3int).last() == self.bytes@[2]);
            assert(be_bytes_value(self.bytes@.subrange(2int, 3int)) == self.bytes@[2]);
            assert(self.bytes@.subrange(2int, 4int).last() == self.bytes@[3]);
            assert(be_bytes_value(self.bytes@.subrange(2int, 4int)) == (self.bytes@[2] as int)
                * 256 + self.bytes@[3]);
            assert(self.bytes@.subrange(2int, 5int).last() == self.bytes@[4]);
            assert(be_bytes_value(self.bytes@.subrange(2int, 5int)) == ((self.bytes@[2] as int)
                * 256 + self.bytes@[3]) * 256 + self.bytes@[4]);
            assert(b.last() == self.bytes@[5]);
            assert(be_bytes_value(b) == (((self.bytes@[2] as int) * 256 + self.bytes@[3]) * 256
                + self.bytes@[4]) * 256 + self.bytes@[5]);
        }
        (self.bytes[2] as u32) * 0x1000000 + (self.bytes[3] as u32) * 0x10000 + (
        self.bytes[4] as u32) * 0x100 + (self.bytes[5] as u32)
    }
}

/// Parse the address list of a routing type 0 extension header: exactly
/// `limit` 16-byte IPv6 addresses filling `data` completely.
pub fn parse_routing_type0_addresses(data: &[u8], limit: usize) -> (r: Result<Vec<Ipv6Addr>, ()>)
    requires
        limit * 16 <= usize::MAX,
    ensures
        (match r {
            Ok(v) => {
                &&& data@.len() == limit * 16
                &&& v@.len() == limit
                &&& forall|i: int|
                    0 <= i < limit ==> (#[trigger] v@[i]).bits == be_bytes_value(
                        data@.subrange(i * 16, i * 16 + 16),
                    )
            },
            Err(_) => data@.len() != limit * 16,
        }),
{
    if data.len() != limit * 16 {
        return Err(());
    }
    let mut addresses: Vec<Ipv6Addr> = Vec::new();
    let mut i: usize = 0;
    while i < limit
        invariant
            i <= limit,
            limit * 16 <= usize::MAX,
            data@.len() == limit * 16,
            addresses@.len() == i,
            forall|k: int|
                0 <= k < i ==> (#[trigger] addresses@[k]).bits == be_bytes_value(
                    data@.subrange(k * 16, k * 16 + 16),
                ),
        decreases limit - i,
    {
        let base = i * 16;
        proof {
            assert(i * 16 + 16 <= limit * 16) by (nonlinear_arith)
                requires
                    i < limit,
            ;
        }
        let mut bits: u128 = 0;
        let mut j: usize = 0;
        proof {
            assert(data@.subrange(base as int, base as int) =~= Seq::<u8>::empty());
            vstd::arithmetic::power::lemma_pow0(256);
        }
        while j < 16
            invariant
                j <= 16,
                base + 16 <= data@.len(),
                data@.len() <= usize::MAX,
                bits == be_bytes_value(data@.subrange(base as int, base + j)),
                bits < vstd::arithmetic::power::pow(256, j as nat),
            decreases 16 - j,
        {
            proof {
                reveal(vstd::arithmetic::power::pow);
                assert(vstd::arithmetic::power::pow(256, (j + 1) as nat)
                    == 256 * vstd::arithmetic::power::pow(256, j as nat));
                vstd::arithmetic::power::lemma_pow_positive(256, j as nat);
                assert(vstd::arithmetic::power::pow(256, 16)
                    == 0x100000000000000000000000000000000) by {
                    reveal_with_fuel(vstd::arithmetic::power::pow, 17);
                }
                vstd::arithmetic::power::lemma_pow_increases(256, (j + 1) as nat, 16nat);
                assert(data@.subrange(base as int, base + j + 1).drop_last() =~= data@.subrange(
                    base as int,
                    base + j,
                ));
            }
            bits = bits * 256 + (data[base + j] as u128);
            j = j + 1;
        }
        addresses.push(Ipv6Addr { bits });
        i = i + 1;
    }
    Ok(addresses)
}

/// An IPv6 extension header: the Next Header value it carries, and its
/// parsed data.
#[derive(Debug)]
pub struct Ipv6ExtensionHeader {
    /// The Next Header field: what follows this header.
    pub next_header: u8,
    /// The header's parsed contents.
    pub data: Ipv6ExtensionHeaderData,
}

/// The data associated with one IPv6 extension header.
#[derive(Debug)]
pub enum Ipv6ExtensionHeaderData {
    HopByHopOptions { options: Vec<ExtensionHeaderOption> },
    Routing { routing_data: RoutingData },
    Fragment { fragment_data: FragmentData },
    DestinationOptions { options: Vec<ExtensionHeaderOption> },
}

impl Ipv6ExtensionHeader {
    /// The header's parsed contents.
    pub fn data(&self) -> (r: &Ipv6ExtensionHeaderData)
        ensures
            r == &self.data,
    {
        &self.data
    }
}


/// Take the Next Header and following length/reserved byte off the front
/// of an extension header, making sure the Next Header value is one this
/// stack recognizes there.
pub fn get_next_hdr_and_len(data: &[u8], context: &Ipv6ExtensionHeaderParsingContext) -> (r:
    Result<(u8, u8), Ipv6ExtensionHeaderParsingError>)
    requires
        context.bytes_parsed <= u32::MAX,
    ensures
        (match r {
            Ok(p) => data@.len() >= 2 && p.0 == data@[0] && p.1 == data@[1]
                && is_valid_next_header_spec(data@[0], false),
            Err(e) => {
                ||| (data@.len() == 0 && e
                    == Ipv6ExtensionHeaderParsingError::BufferExhausted)
                ||| (data@.len() >= 1 && !is_valid_next_header_spec(data@[0], false) && e == (
                Ipv6ExtensionHeaderParsingError::UnrecognizedNextHeader {
                    pointer: context.bytes_parsed as u32,
                    must_send_icmp: false,
                    header_len: context.bytes_parsed,
                }))
                ||| (data@.len() == 1 && is_valid_next_header_spec(data@[0], false) && e
                    == Ipv6ExtensionHeaderParsingError::BufferExhausted)
            },
        }),
{
    if data.len() == 0 {
        return Err(Ipv6ExtensionHeaderParsingError::BufferExhausted);
    }
    let next_header = data[0];

    // An unrecognized Next Header SHOULD draw an ICMP response; since it
    // only should, `must_send_icmp` stays false.
    if !Ipv6ExtensionHeaderImpl::valid_next_header(next_header) {
        return Err(
            Ipv6ExtensionHeaderParsingError::UnrecognizedNextHeader {
                pointer: context.bytes_parsed as u32,
                must_send_icmp: false,
                header_len: context.bytes_parsed,
            },
        );
    }
    if data.len() < 2 {
        return Err(Ipv6ExtensionHeaderParsingError::BufferExhausted);
    }
    Ok((next_header, data[1]))
}

/// Parse a Fragment extension header: exactly eight bytes, of which the
/// second is reserved and the last six carry the offset, flags and
/// identification (RFC 8200 section 4.5).
pub fn parse_fragment(data: &[u8], context: &mut Ipv6ExtensionHeaderParsingContext) -> (r: Result<
    Ipv6ExtensionHeader,
    Ipv6ExtensionHeaderParsingError,
>)
    requires
        old(context).bytes_parsed + 8 <= u32::MAX,
        old(context).headers_parsed + 1 <= usize::MAX,
    ensures
        data@.len() < 8 ==> r == Err::<Ipv6ExtensionHeader, Ipv6ExtensionHeaderParsingError>(
            Ipv6ExtensionHeaderParsingError::BufferExhausted,
        ) && *final(context) == *old(context),
        data@.len() >= 8 && !is_valid_next_header_spec(data@[0], false) ==> r == Err::<
            Ipv6ExtensionHeader,
            Ipv6ExtensionHeaderParsingError,
        >(
            Ipv6ExtensionHeaderParsingError::UnrecognizedNextHeader {
                pointer: old(context).bytes_parsed as u32,
                must_send_icmp: false,
                header_len: old(context).bytes_parsed,
            },
        ) && *final(context) == *old(context),
        data@.len() >= 8 && is_valid_next_header_spec(data@[0], false) ==> (match r {
            Ok(h) => {
                &&& h.next_header == data@[0]
                &&& (match h.data {
                    Ipv6ExtensionHeaderData::Fragment { fragment_data } => fragment_data.bytes@
                        == data@.subrange(2, 8),
                    _ => false,
                })
                &&& final(context).next_header == data@[0]
                &&& final(context).headers_parsed == old(context).headers_parsed + 1
                &&& final(context).bytes_parsed == old(context).bytes_parsed + 8
            },
            Err(_) => false,
        }),
{
    // A Fragment header is exactly eight bytes; make sure they are there.
    if data.len() < 8 {
        return Err(Ipv6ExtensionHeaderParsingError::BufferExhausted);
    }

    // The byte where other headers keep their length is reserved here.
    let next_header = match get_next_hdr_and_len(data, context) {
        Ok(p) => p.0,
        Err(e) => {
            return Err(e);
        },
    };

    let mut bytes: Vec<u8> = Vec::new();
    let mut j: usize = 2;
    while j < 8
        invariant
            2 <= j <= 8,
            data@.len() >= 8,
            bytes@ =~= data@.subrange(2, j as int),
        decreases 8 - j,
    {
        bytes.push(data[j]);
        j = j + 1;
    }

    context.next_header = next_header;
    context.headers_parsed = context.headers_parsed + 1;
    context.bytes_parsed = context.bytes_parsed + 8;

    Ok(
        Ipv6ExtensionHeader {
            next_header,
            data: Ipv6ExtensionHeaderData::Fragment {
                fragment_data: FragmentData { bytes },
            },
        },
    )
}

} // verus!

