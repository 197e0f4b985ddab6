//! The decision step of the discovery listener: what one received datagram
//! means, and what it does to the peer registry.
//!
//! The listener's loop around it — binding the UDP socket, joining the
//! multicast group, blocking on receive — lives in the application; it hands
//! this module the datagram bytes and the sender's IP, and goes on looping
//! whatever the outcome.

use vstd::prelude::*;

use crate::addr::{Ipv4Address, PeerAddress};
use crate::announcement::{parse_announcement_spec, Announcement, InvalidAnnouncement};
use crate::registry::PeerRegistry;

verus! {

/// The announcement a datagram from `sender_ip` yields: the parsed packet,
/// with an announced unspecified IP (`0.0.0.0`) replaced by the sender's, so
/// a peer can announce its port without knowing its own address.
pub open spec fn announcement_of_datagram(b: Seq<u8>, sender_ip: Ipv4Address) -> Result<
    Announcement,
    InvalidAnnouncement,
> {
    match parse_announcement_spec(b) {
        Ok(a) => Ok(
            if a.peer_addr.ip.spec_is_unspecified() {
                Announcement {
                    peer_id: a.peer_id,
                    peer_addr: PeerAddress { ip: sender_ip, port: a.peer_addr.port },
                }
            } else {
                a
            },
        ),
        Err(e) => Err(e),
    }
}

/// Reads one received datagram: on success, the announced peer, with an
/// unspecified announced IP replaced by the IP the datagram came from.
pub fn process_datagram(bytes: &[u8], sender_ip: Ipv4Address) -> (r: Result<
    Announcement,
    InvalidAnnouncement,
>)
    ensures
        r == announcement_of_datagram(bytes@, sender_ip),
{
    let mut a = match Announcement::from_bytes(bytes) {
        Ok(a) => a,
        Err(e) => {
            return Err(e);
        },
    };
    if a.peer_addr.ip.is_unspecified() {
        a.peer_addr.set_ip(sender_ip);
    }
    Ok(a)
}

/// One full step of the discovery listener: reads the datagram and records
/// the announced peer. The registry is untouched when the datagram is not a
/// valid announcement; that failure is no reason to stop listening.
pub fn handle_datagram(registry: &mut PeerRegistry, bytes: &[u8], sender_ip: Ipv4Address) -> (r:
    Result<Announcement, InvalidAnnouncement>)
    requires
        old(registry).wf(),
    ensures
        final(registry).wf(),
        r == announcement_of_datagram(bytes@, sender_ip),
        match announcement_of_datagram(bytes@, sender_ip) {
            Ok(a) => final(registry)@ == old(registry)@.insert(a.peer_id, a.peer_addr),
            Err(_) => final(registry)@ == old(registry)@,
        },
{
    match process_datagram(bytes, sender_ip) {
        Ok(a) => {
            registry.upsert(a.peer_id, a.peer_addr);
            Ok(a)
        },
        Err(e) => Err(e),
    }
}

} // verus!
