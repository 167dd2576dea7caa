//! IP fragment reassembly and path-MTU caching.
//!
//! This library implements the core of a host-side IP layer: reassembly of
//! fragmented IPv4/IPv6 datagrams with gap tracking and a strict per-datagram
//! timeout, and a per-path MTU cache with monotone-decrease updates, plateau
//! descent and staleness-driven eviction. Both caches are driven by a single
//! timer schedule; the host performs the actual waiting and hands fired timer
//! ids back to the library.

pub mod assoc;
pub mod context;
pub mod ext_hdrs;
pub mod ip;
pub mod packet;
pub mod path_mtu;
pub mod reassembly;
pub mod time;
pub mod timer;
pub mod wire;
