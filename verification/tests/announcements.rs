use landrop::addr::{parse_addr, parse_ipv4, format_addr, Ipv4Address, PeerAddress};
use landrop::announcement::{Announcement, AnnouncementPkt, InvalidAnnouncement};
use landrop::decimal::{format_u64, parse_u64};
use landrop::packet::PacketParseError;

fn addr(a: u8, b: u8, c: u8, d: u8, port: u16) -> PeerAddress {
    PeerAddress::new(Ipv4Address::new(a, b, c, d), port)
}

#[test]
fn announcement_encodes_exactly() {
    let ann = Announcement::new(42, addr(10, 0, 0, 5, 25802));
    assert_eq!(ann.as_bytes(), b"id=42\naddr=10.0.0.5:25802\n::".to_vec());
}

#[test]
fn announcement_round_trips() {
    let ann = Announcement::new(42, addr(10, 0, 0, 5, 25802));
    let back = Announcement::from_bytes(&ann.as_bytes()).unwrap();
    assert_eq!(back.peer_id, 42);
    assert_eq!(back.peer_addr, addr(10, 0, 0, 5, 25802));
}

#[test]
fn announcement_round_trips_at_extremes() {
    let ann = Announcement::new(u64::MAX, addr(255, 255, 255, 255, 65535));
    let back = Announcement::from_bytes(&ann.as_bytes()).unwrap();
    assert_eq!(back, ann);
    let ann = Announcement::new(0, addr(0, 0, 0, 0, 0));
    let back = Announcement::from_bytes(&ann.as_bytes()).unwrap();
    assert_eq!(back, ann);
}

#[test]
fn announcement_pkt_exposes_id_and_addr() {
    let pkt = AnnouncementPkt::new(7, addr(192, 168, 1, 3, 25802));
    let bytes = pkt.as_bytes();
    let back = AnnouncementPkt::from_bytes(&bytes).unwrap();
    assert_eq!(back.get_peer_id(), Some(7));
    assert_eq!(back.get_peer_addr(), Some(addr(192, 168, 1, 3, 25802)));
}

#[test]
fn missing_id_header_is_reported() {
    let r = Announcement::from_bytes(b"addr=1.2.3.4:80\n::");
    assert!(matches!(r, Err(InvalidAnnouncement::MissingPeerID)));
}

#[test]
fn unreadable_id_value_is_reported_as_missing() {
    let r = Announcement::from_bytes(b"id=abc\naddr=1.2.3.4:80\n::");
    assert!(matches!(r, Err(InvalidAnnouncement::MissingPeerID)));
}

#[test]
fn missing_addr_header_is_reported() {
    let r = Announcement::from_bytes(b"id=1\n::");
    assert!(matches!(r, Err(InvalidAnnouncement::MissingPeerAddr)));
}

#[test]
fn unreadable_addr_value_is_reported_as_missing() {
    let r = Announcement::from_bytes(b"id=1\naddr=nowhere\n::");
    assert!(matches!(r, Err(InvalidAnnouncement::MissingPeerAddr)));
}

#[test]
fn bytes_without_separator_are_no_announcement() {
    let r = Announcement::from_bytes(b"id=1");
    assert!(matches!(
        r,
        Err(InvalidAnnouncement::InvalidPacket(PacketParseError::MissingSectionsSeparator))
    ));
}

#[test]
fn peer_id_grammar() {
    assert_eq!(parse_u64(b"42"), Some(42));
    assert_eq!(parse_u64(b"+42"), Some(42));
    assert_eq!(parse_u64(b"0"), Some(0));
    assert_eq!(parse_u64(b"18446744073709551615"), Some(u64::MAX));
    assert_eq!(parse_u64(b"18446744073709551616"), None);
    assert_eq!(parse_u64(b""), None);
    assert_eq!(parse_u64(b"+"), None);
    assert_eq!(parse_u64(b"-1"), None);
    assert_eq!(parse_u64(b"1 2"), None);
}

#[test]
fn peer_id_formats_in_decimal() {
    assert_eq!(format_u64(0), b"0".to_vec());
    assert_eq!(format_u64(25802), b"25802".to_vec());
    assert_eq!(format_u64(u64::MAX), b"18446744073709551615".to_vec());
}

#[test]
fn address_grammar() {
    assert_eq!(parse_addr(b"10.0.0.5:25802"), Some(addr(10, 0, 0, 5, 25802)));
    assert_eq!(parse_addr(b"0.0.0.0:0"), Some(addr(0, 0, 0, 0, 0)));
    assert_eq!(parse_addr(b"255.255.255.255:65535"), Some(addr(255, 255, 255, 255, 65535)));
    assert_eq!(parse_addr(b"10.0.0.5"), None);
    assert_eq!(parse_addr(b"10.0.5:80"), None);
    assert_eq!(parse_addr(b"10.0.0.5.6:80"), None);
    assert_eq!(parse_addr(b"256.0.0.1:80"), None);
    assert_eq!(parse_addr(b"01.2.3.4:80"), None);
    assert_eq!(parse_addr(b"1.2.3.4:65536"), None);
    assert_eq!(parse_addr(b"1.2.3.4:080"), None);
    assert_eq!(parse_addr(b"1.2.3.4:"), None);
    assert_eq!(parse_addr(b":80"), None);
}

#[test]
fn ipv4_grammar() {
    assert_eq!(parse_ipv4(b"192.168.1.20"), Some(Ipv4Address::new(192, 168, 1, 20)));
    assert_eq!(parse_ipv4(b"192.168.1"), None);
    assert_eq!(parse_ipv4(b"a.b.c.d"), None);
}

#[test]
fn address_formats_in_canonical_decimal() {
    assert_eq!(format_addr(&addr(10, 0, 0, 5, 25802)), b"10.0.0.5:25802".to_vec());
    assert_eq!(format_addr(&addr(0, 0, 0, 0, 0)), b"0.0.0.0:0".to_vec());
}

#[test]
fn unspecified_address_is_recognized() {
    assert!(Ipv4Address::new(0, 0, 0, 0).is_unspecified());
    assert!(!Ipv4Address::new(0, 0, 0, 1).is_unspecified());
}
