//! IP address families, addresses, and protocol numbers.

use vstd::prelude::*;

verus! {

/// The two IP address families. The caches keep fully independent state for
/// each family.
#[derive(Clone, Copy, Debug, PartialEq, Eq, Structural)]
pub enum IpVersion {
    V4,
    V6,
}

/// An IPv4 address, stored as its 32-bit big-endian integer value.
#[derive(Clone, Copy, Debug, PartialEq, Eq, Structural)]
pub struct Ipv4Addr {
    pub bits: u32,
}

impl Ipv4Addr {
    pub fn new(bits: u32) -> (r: Ipv4Addr)
        ensures
            r.bits == bits,
    {
        Ipv4Addr { bits }
    }
}

/// An IPv6 address, stored as its 128-bit big-endian integer value.
#[derive(Clone, Copy, Debug, PartialEq, Eq, Structural)]
pub struct Ipv6Addr {
    pub bits: u128,
}

impl Ipv6Addr {
    pub fn new(bits: u128) -> (r: Ipv6Addr)
        ensures
            r.bits == bits,
    {
        Ipv6Addr { bits }
    }
}

/// An address of either family.
#[derive(Clone, Copy, Debug, PartialEq, Eq, Structural)]
pub enum IpAddr {
    V4(Ipv4Addr),
    V6(Ipv6Addr),
}

impl IpAddr {
    /// The family this address belongs to.
    pub open spec fn version_spec(self) -> IpVersion {
        match self {
            IpAddr::V4(_) => IpVersion::V4,
            IpAddr::V6(_) => IpVersion::V6,
        }
    }

    /// The family this address belongs to.
    pub fn version(self) -> (r: IpVersion)
        ensures
            r == self.version_spec(),
    {
        match self {
            IpAddr::V4(_) => IpVersion::V4,
            IpAddr::V6(_) => IpVersion::V6,
        }
    }

    /// The address value widened to 128 bits. Within one family this is
    /// injective, and the caches never mix families.
    pub open spec fn bits_spec(self) -> u128 {
        match self {
            IpAddr::V4(a) => a.bits as u128,
            IpAddr::V6(a) => a.bits,
        }
    }

    /// The address value widened to 128 bits.
    pub fn bits(self) -> (r: u128)
        ensures
            r == self.bits_spec(),
    {
        match self {
            IpAddr::V4(a) => a.bits as u128,
            IpAddr::V6(a) => a.bits,
        }
    }
}

/// Upper-layer protocol numbers the stack recognizes in IPv6 Next Header
/// fields, plus a catch-all for everything else.
#[derive(Clone, Copy, Debug, PartialEq, Eq, Structural)]
pub enum IpProto {
    Icmp,
    Igmp,
    Tcp,
    Udp,
    Icmpv6,
    NoNextHeader,
    Other(u8),
}

impl IpProto {
    /// The protocol's IANA-assigned number.
    pub open spec fn number_spec(self) -> u8 {
        match self {
            IpProto::Icmp => 1u8,
            IpProto::Igmp => 2u8,
            IpProto::Tcp => 6u8,
            IpProto::Udp => 17u8,
            IpProto::Icmpv6 => 58u8,
            IpProto::NoNextHeader => 59u8,
            IpProto::Other(b) => b,
        }
    }

    /// The protocol's IANA-assigned number.
    pub fn number(self) -> (r: u8)
        ensures
            r == self.number_spec(),
    {
        match self {
            IpProto::Icmp => 1,
            IpProto::Igmp => 2,
            IpProto::Tcp => 6,
            IpProto::Udp => 17,
            IpProto::Icmpv6 => 58,
            IpProto::NoNextHeader => 59,
            IpProto::Other(b) => b,
        }
    }

    /// Classify a protocol number.
    pub open spec fn from_byte_spec(b: u8) -> IpProto {
        if b == 1 {
            IpProto::Icmp
        } else if b == 2 {
            IpProto::Igmp
        } else if b == 6 {
            IpProto::Tcp
        } else if b == 17 {
            IpProto::Udp
        } else if b == 58 {
            IpProto::Icmpv6
        } else if b == 59 {
            IpProto::NoNextHeader
        } else {
            IpProto::Other(b)
        }
    }

    /// Classify a protocol number.
    pub fn from_byte(b: u8) -> (r: IpProto)
        ensures
            r == IpProto::from_byte_spec(b),
    {
        if b == 1 {
            IpProto::Icmp
        } else if b == 2 {
            IpProto::Igmp
        } else if b == 6 {
            IpProto::Tcp
        } else if b == 17 {
            IpProto::Udp
        } else if b == 58 {
            IpProto::Icmpv6
        } else if b == 59 {
            IpProto::NoNextHeader
        } else {
            IpProto::Other(b)
        }
    }
}

/// IPv6 extension header types, plus a catch-all for every other Next
/// Header value.
#[derive(Clone, Copy, Debug, PartialEq, Eq, Structural)]
pub enum Ipv6ExtHdrType {
    HopByHopOptions,
    Routing,
    Fragment,
    EncapsulatingSecurityPayload,
    Authentication,
    DestinationOptions,
    Other(u8),
}

impl Ipv6ExtHdrType {
    /// The header type's IANA-assigned number.
    pub open spec fn number_spec(self) -> u8 {
        match self {
            Ipv6ExtHdrType::HopByHopOptions => 0u8,
            Ipv6ExtHdrType::Routing => 43u8,
            Ipv6ExtHdrType::Fragment => 44u8,
            Ipv6ExtHdrType::EncapsulatingSecurityPayload => 50u8,
            Ipv6ExtHdrType::Authentication => 51u8,
            Ipv6ExtHdrType::DestinationOptions => 60u8,
            Ipv6ExtHdrType::Other(b) => b,
        }
    }

    /// The header type's IANA-assigned number.
    pub fn number(self) -> (r: u8)
        ensures
            r == self.number_spec(),
    {
        match self {
            Ipv6ExtHdrType::HopByHopOptions => 0,
            Ipv6ExtHdrType::Routing => 43,
            Ipv6ExtHdrType::Fragment => 44,
            Ipv6ExtHdrType::EncapsulatingSecurityPayload => 50,
            Ipv6ExtHdrType::Authentication => 51,
            Ipv6ExtHdrType::DestinationOptions => 60,
            Ipv6ExtHdrType::Other(b) => b,
        }
    }

    /// Classify a Next Header value.
    pub open spec fn from_byte_spec(b: u8) -> Ipv6ExtHdrType {
        if b == 0 {
            Ipv6ExtHdrType::HopByHopOptions
        } else if b == 43 {
            Ipv6ExtHdrType::Routing
        } else if b == 44 {
            Ipv6ExtHdrType::Fragment
        } else if b == 50 {
            Ipv6ExtHdrType::EncapsulatingSecurityPayload
        } else if b == 51 {
            Ipv6ExtHdrType::Authentication
        } else if b == 60 {
            Ipv6ExtHdrType::DestinationOptions
        } else {
            Ipv6ExtHdrType::Other(b)
        }
    }

    /// Classify a Next Header value.
    pub fn from_byte(b: u8) -> (r: Ipv6ExtHdrType)
        ensures
            r == Ipv6ExtHdrType::from_byte_spec(b),
    {
        if b == 0 {
            Ipv6ExtHdrType::HopByHopOptions
        } else if b == 43 {
            Ipv6ExtHdrType::Routing
        } else if b == 44 {
            Ipv6ExtHdrType::Fragment
        } else if b == 50 {
            Ipv6ExtHdrType::EncapsulatingSecurityPayload
        } else if b == 51 {
            Ipv6ExtHdrType::Authentication
        } else if b == 60 {
            Ipv6ExtHdrType::DestinationOptions
        } else {
            Ipv6ExtHdrType::Other(b)
        }
    }
}

} // verus!
