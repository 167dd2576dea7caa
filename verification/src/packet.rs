//! The library's view of one received IP packet.
//!
//! The host's wire parser reduces each packet to plain values before handing
//! it to the caches: addresses, the fragmentation triple, and the raw header
//! and body bytes. Reassembled buffers travel back to the host's parser the
//! same way.

use vstd::prelude::*;

use crate::ip::IpAddr;

verus! {

/// The fragmentation triple of a packet that carries one.
#[derive(Clone, Copy, Debug, PartialEq, Eq, Structural)]
pub struct FragmentInfo {
    /// The fragment identification value.
    pub id: u32,
    /// The fragment offset, in 8-octet blocks.
    pub offset: u16,
    /// The more-fragments flag.
    pub m_flag: bool,
}

/// One parsed packet, as plain values.
pub struct Packet {
    /// The packet's source address.
    pub src_ip: IpAddr,
    /// The packet's destination address.
    pub dst_ip: IpAddr,
    /// Fragmentation data, absent when the packet has no fragment header.
    pub fragment: Option<FragmentInfo>,
    /// The header bytes (for IPv4, the fixed header; for IPv6, the headers
    /// up to and excluding the fragment extension header's payload).
    pub header: Vec<u8>,
    /// The body bytes carried by this packet or fragment.
    pub body: Vec<u8>,
}

impl Packet {
    /// Return fragment identifier data: the identification value, offset
    /// and more-fragments flag, or `None` for an unfragmented packet.
    pub fn fragment_data(&self) -> (r: Option<(u32, u16, bool)>)
        ensures
            r == (match self.fragment {
                Some(f) => Some((f.id, f.offset, f.m_flag)),
                None => None::<(u32, u16, bool)>,
            }),
    {
        match self.fragment {
            Some(f) => Some((f.id, f.offset, f.m_flag)),
            None => None,
        }
    }
}

} // verus!
