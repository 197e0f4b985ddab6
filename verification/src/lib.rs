//! Peer-to-peer file sharing over a local network.
//!
//! Devices announce themselves over UDP multicast, remember one another in a
//! peer registry, and exchange whole files over TCP. Everything on the wire is
//! a length-free header/payload packet: header lines of the form `name=value`,
//! a two-byte section separator `::`, then the raw payload bytes.
//!
//! This crate holds the verified core: the packet codec, the announcement
//! format, the peer registry, and the decision logic of the discovery and
//! transfer loops. The sockets, threads and filesystem around it live in the
//! accompanying application code.

pub mod addr;
pub mod announcement;
pub mod decimal;
pub mod discovery;
pub mod packet;
pub mod registry;
pub mod text;
pub mod transfer;
