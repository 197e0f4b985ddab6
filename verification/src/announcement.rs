//! Announcements: the packet a peer broadcasts to make itself known, with
//! the headers `id` (its identifier) and `addr` (where it accepts files).

use vstd::prelude::*;

use crate::addr::{
    addr_bytes, format_addr, lemma_addr_bytes_chars, lemma_addr_round_trip, parse_addr,
    parse_addr_spec, PeerAddress,
};
use crate::decimal::{
    dec_bytes, format_u64, is_digit, lemma_dec_bytes_canonical, lemma_u64_dec_round_trip,
    parse_u64, parse_u64_spec,
};
use crate::packet::{
    decode_err, decode_ok, decoded_headers_of, encodable_header, encodable_headers,
    lemma_packet_round_trip, lookup_header, packet_bytes, unique_header_names, upsert_header,
    Packet, PacketParseError,
};
use crate::text::lemma_ascii_is_utf8;

verus! {

/// A peer's process-lifetime identifier.
pub type PeerID = u64;

/// The name of the header carrying the peer identifier: `id`.
pub open spec fn id_header_name() -> Seq<u8> {
    seq![105u8, 100u8]
}

/// The name of the header carrying the peer address: `addr`.
pub open spec fn addr_header_name() -> Seq<u8> {
    seq![97u8, 100u8, 100u8, 114u8]
}

/// The header name `id` as bytes.
fn id_header_bytes() -> (r: Vec<u8>)
    ensures
        r@ == id_header_name(),
{
    let mut v: Vec<u8> = Vec::new();
    v.push(105);
    v.push(100);
    proof {
        assert(v@ =~= id_header_name());
    }
    v
}

/// The header name `addr` as bytes.
fn addr_header_bytes() -> (r: Vec<u8>)
    ensures
        r@ == addr_header_name(),
{
    let mut v: Vec<u8> = Vec::new();
    v.push(97);
    v.push(100);
    v.push(100);
    v.push(114);
    proof {
        assert(v@ =~= addr_header_name());
    }
    v
}

/// The headers of the announcement of peer `id` at `addr`.
pub open spec fn announcement_headers(id: PeerID, addr: PeerAddress) -> Seq<(Seq<u8>, Seq<u8>)> {
    seq![
        (id_header_name(), dec_bytes(id as int)),
        (addr_header_name(), addr_bytes(addr)),
    ]
}

/// The serialized announcement of peer `id` at `addr`: the two headers and
/// no payload.
pub open spec fn announcement_bytes(id: PeerID, addr: PeerAddress) -> Seq<u8> {
    packet_bytes(announcement_headers(id, addr), Seq::empty())
}

/// The peer identifier a decoded header map announces, if any: the value of
/// the `id` header, read as a decimal number.
pub open spec fn peer_id_of(hs: Seq<(Seq<u8>, Seq<u8>)>) -> Option<PeerID> {
    match lookup_header(hs, id_header_name()) {
        Some(v) => parse_u64_spec(v),
        None => None,
    }
}

/// The peer address a decoded header map announces, if any: the value of the
/// `addr` header, read as `a.b.c.d:port`.
pub open spec fn peer_addr_of(hs: Seq<(Seq<u8>, Seq<u8>)>) -> Option<PeerAddress> {
    match lookup_header(hs, addr_header_name()) {
        Some(v) => parse_addr_spec(v),
        None => None,
    }
}

/// Why bytes failed to parse as an announcement.
#[derive(Clone, Copy, Debug, PartialEq, Eq, Structural)]
pub enum InvalidAnnouncement {
    /// The packet carries no readable `id` header.
    MissingPeerID,
    /// The packet carries no readable `addr` header.
    MissingPeerAddr,
    /// The bytes are no packet at all.
    InvalidPacket(PacketParseError),
}

/// What parsing an announcement accepts and returns, over serialized bytes.
pub open spec fn parse_announcement_spec(b: Seq<u8>) -> Result<Announcement, InvalidAnnouncement> {
    if !decode_ok(b) {
        Err(InvalidAnnouncement::InvalidPacket(decode_err(b)))
    } else {
        let hs = decoded_headers_of(b);
        match peer_id_of(hs) {
            None => Err(InvalidAnnouncement::MissingPeerID),
            Some(id) => match peer_addr_of(hs) {
                None => Err(InvalidAnnouncement::MissingPeerAddr),
                Some(addr) => Ok(Announcement { peer_id: id, peer_addr: addr }),
            },
        }
    }
}

/// A peer's presence: its identifier and where it accepts file transfers.
#[derive(Clone, Copy, Debug, PartialEq, Eq, Structural)]
pub struct Announcement {
    pub peer_id: PeerID,
    pub peer_addr: PeerAddress,
}

impl Announcement {
    /// Builds the announcement of peer `peer_id` at `peer_addr`.
    pub fn new(peer_id: PeerID, peer_addr: PeerAddress) -> (r: Announcement)
        ensures
            r == (Announcement { peer_id, peer_addr }),
    {
        Announcement { peer_id, peer_addr }
    }

    /// Parses an announcement from serialized packet bytes.
    pub fn from_bytes(bytes: &[u8]) -> (r: Result<Announcement, InvalidAnnouncement>)
        ensures
            r == parse_announcement_spec(bytes@),
    {
        let pkt = match Packet::from_bytes(bytes) {
            Ok(p) => p,
            Err(e) => {
                return Err(InvalidAnnouncement::InvalidPacket(e));
            },
        };
        let id = match pkt.get_header(id_header_bytes().as_slice()) {
            Some(v) => match parse_u64(v.as_slice()) {
                Some(id) => id,
                None => {
                    return Err(InvalidAnnouncement::MissingPeerID);
                },
            },
            None => {
                return Err(InvalidAnnouncement::MissingPeerID);
            },
        };
        let addr = match pkt.get_header(addr_header_bytes().as_slice()) {
            Some(v) => match parse_addr(v.as_slice()) {
                Some(a) => a,
                None => {
                    return Err(InvalidAnnouncement::MissingPeerAddr);
                },
            },
            None => {
                return Err(InvalidAnnouncement::MissingPeerAddr);
            },
        };
        Ok(Announcement { peer_id: id, peer_addr: addr })
    }

    /// Serializes the announcement as a packet with the headers `id` and
    /// `addr` and no payload.
    pub fn as_bytes(&self) -> (r: Vec<u8>)
        ensures
            r@ == announcement_bytes(self.peer_id, self.peer_addr),
    {
        let mut pkt = Packet::new();
        pkt.set_header(id_header_bytes().as_slice(), format_u64(self.peer_id).as_slice());
        pkt.set_header(addr_header_bytes().as_slice(), format_addr(&self.peer_addr).as_slice());
        proof {
            lemma_announcement_headers_build(self.peer_id, self.peer_addr);
        }
        pkt.as_bytes()
    }
}

/// A raw announcement packet, before its headers are read.
pub struct AnnouncementPkt(Packet);

impl AnnouncementPkt {
    /// The packet's headers.
    pub closed spec fn headers_view(&self) -> Seq<(Seq<u8>, Seq<u8>)> {
        self.0.headers_view()
    }

    /// The packet's payload bytes; an announcement carries none.
    pub closed spec fn payload_bytes(&self) -> Seq<u8> {
        self.0.payload_bytes()
    }

    /// No two headers share a name.
    pub closed spec fn wf(&self) -> bool {
        self.0.wf()
    }

    /// Builds the announcement packet of peer `id` at `addr`.
    pub fn new(id: PeerID, addr: PeerAddress) -> (r: AnnouncementPkt)
        ensures
            r.headers_view() == announcement_headers(id, addr),
            r.payload_bytes() == Seq::<u8>::empty(),
            r.wf(),
    {
        let mut pkt = Packet::new();
        pkt.set_header(id_header_bytes().as_slice(), format_u64(id).as_slice());
        pkt.set_header(addr_header_bytes().as_slice(), format_addr(&addr).as_slice());
        proof {
            lemma_announcement_headers_build(id, addr);
        }
        AnnouncementPkt(pkt)
    }

    /// Reconstructs an announcement packet from serialized bytes.
    pub fn from_bytes(bytes: &[u8]) -> (r: Result<AnnouncementPkt, PacketParseError>)
        ensures
            match r {
                Ok(p) => decode_ok(bytes@) && p.wf() && p.headers_view() == decoded_headers_of(
                    bytes@,
                ),
                Err(e) => !decode_ok(bytes@) && e == decode_err(bytes@),
            },
    {
        match Packet::from_bytes(bytes) {
            Ok(p) => Ok(AnnouncementPkt(p)),
            Err(e) => Err(e),
        }
    }

    /// The peer identifier the packet announces, if its `id` header is
    /// present and readable.
    pub fn get_peer_id(&self) -> (r: Option<PeerID>)
        ensures
            r == peer_id_of(self.headers_view()),
    {
        match self.0.get_header(id_header_bytes().as_slice()) {
            Some(v) => parse_u64(v.as_slice()),
            None => None,
        }
    }

    /// The peer address the packet announces, if its `addr` header is
    /// present and readable.
    pub fn get_peer_addr(&self) -> (r: Option<PeerAddress>)
        ensures
            r == peer_addr_of(self.headers_view()),
    {
        match self.0.get_header(addr_header_bytes().as_slice()) {
            Some(v) => parse_addr(v.as_slice()),
            None => None,
        }
    }

    /// Serializes the packet.
    pub fn as_bytes(&self) -> (r: Vec<u8>)
        ensures
            r@ == packet_bytes(self.headers_view(), self.payload_bytes()),
    {
        self.0.as_bytes()
    }
}

/// Setting the `id` and `addr` headers on an empty packet yields exactly the
/// announcement headers.
proof fn lemma_announcement_headers_build(id: PeerID, addr: PeerAddress)
    ensures
        upsert_header(
            upsert_header(Seq::empty(), id_header_name(), dec_bytes(id as int)),
            addr_header_name(),
            addr_bytes(addr),
        ) == announcement_headers(id, addr),
{
    let first = upsert_header(Seq::empty(), id_header_name(), dec_bytes(id as int));
    assert(first =~= seq![(id_header_name(), dec_bytes(id as int))]);
    assert(first[0].0 != addr_header_name());
    crate::packet::lemma_header_index_from(first, addr_header_name(), 0);
    assert(crate::packet::header_index_from(first, addr_header_name(), 0) is None);
    let second = upsert_header(first, addr_header_name(), addr_bytes(addr));
    assert(second =~= announcement_headers(id, addr));
}

/// The announcement headers are encodable: names unique, every byte of every
/// name and value survives the packet grammar.
proof fn lemma_announcement_headers_encodable(id: PeerID, addr: PeerAddress)
    ensures
        encodable_headers(announcement_headers(id, addr)),
{
    let hs = announcement_headers(id, addr);
    let idv = dec_bytes(id as int);
    let av = addr_bytes(addr);
    lemma_dec_bytes_canonical(id as int);
    lemma_addr_bytes_chars(addr);
    lemma_ascii_is_utf8(id_header_name());
    lemma_ascii_is_utf8(addr_header_name());
    lemma_ascii_is_utf8(idv);
    lemma_ascii_is_utf8(av);
    assert forall|i: int| !crate::packet::sep_at(idv, i) by {
        if 0 <= i && i + 2 <= idv.len() {
            assert(is_digit(idv[i]));
        }
    }
    assert forall|i: int| !crate::packet::sep_at(av, i) by {
        if 0 <= i && i + 2 <= av.len() {
            if av[i] == crate::packet::SECTION_SEPARATOR_BYTE && av[i + 1]
                == crate::packet::SECTION_SEPARATOR_BYTE {
                assert(av[i] == crate::addr::PORT_SEPARATOR);
                assert(av[i + 1] == crate::addr::PORT_SEPARATOR);
                assert(i == crate::addr::ipv4_bytes(addr.ip).len());
                assert(i + 1 == crate::addr::ipv4_bytes(addr.ip).len());
            }
        }
    }
    assert forall|i: int| !crate::packet::sep_at(id_header_name(), i) by {}
    assert forall|i: int| !crate::packet::sep_at(addr_header_name(), i) by {}
    assert(encodable_header(hs[0].0, hs[0].1));
    assert(encodable_header(hs[1].0, hs[1].1));
    assert(unique_header_names(hs));
}

/// The announcement round trip: the serialized announcement of any peer
/// identifier and address parses back to exactly that identifier and
/// address.
pub proof fn lemma_announcement_round_trip(id: PeerID, addr: PeerAddress)
    ensures
        parse_announcement_spec(announcement_bytes(id, addr)) == Ok::<Announcement, InvalidAnnouncement>(
            Announcement { peer_id: id, peer_addr: addr },
        ),
{
    let hs = announcement_headers(id, addr);
    let b = announcement_bytes(id, addr);
    lemma_announcement_headers_encodable(id, addr);
    lemma_packet_round_trip(hs, Seq::<u8>::empty());
    assert(decoded_headers_of(b) == hs);
    crate::packet::lemma_header_index_from(hs, id_header_name(), 0);
    assert(hs[0].0 == id_header_name());
    assert(lookup_header(hs, id_header_name()) == Some(dec_bytes(id as int)));
    crate::packet::lemma_header_index_from(hs, addr_header_name(), 0);
    assert(hs[1].0 == addr_header_name());
    assert(hs[0].0 != addr_header_name());
    assert(lookup_header(hs, addr_header_name()) == Some(addr_bytes(addr)));
    lemma_u64_dec_round_trip(id);
    lemma_addr_round_trip(addr);
}

} // verus!
