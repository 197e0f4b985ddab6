use landrop::packet::{Packet, PacketParseError};

#[test]
fn empty_packet_encodes_to_separator_only() {
    let pkt = Packet::new();
    assert_eq!(pkt.as_bytes(), b"::".to_vec());
}

#[test]
fn one_header_and_payload_encode_exactly() {
    let mut pkt = Packet::new();
    pkt.set_header(b"k", b"v");
    pkt.set_payload(vec![1, 2, 3]);
    assert_eq!(pkt.as_bytes(), b"k=v\n::\x01\x02\x03".to_vec());
}

#[test]
fn headers_keep_insertion_order() {
    let mut pkt = Packet::new();
    pkt.set_header(b"a", b"1");
    pkt.set_header(b"b", b"2");
    assert_eq!(pkt.as_bytes(), b"a=1\nb=2\n::".to_vec());
}

#[test]
fn setting_a_header_twice_keeps_its_place_and_last_value() {
    let mut pkt = Packet::new();
    pkt.set_header(b"a", b"1");
    pkt.set_header(b"b", b"2");
    pkt.set_header(b"a", b"3");
    assert_eq!(pkt.as_bytes(), b"a=3\nb=2\n::".to_vec());
    assert_eq!(pkt.get_header(b"a").unwrap().as_slice(), b"3");
}

#[test]
fn round_trip_recovers_headers_and_payload() {
    let mut pkt = Packet::new();
    pkt.set_header(b"name", b"value");
    pkt.set_header(b"other", b"x y z");
    pkt.set_payload(vec![0, 255, 58, 58, 7]);
    let bytes = pkt.as_bytes();
    let back = Packet::from_bytes(&bytes).unwrap();
    assert_eq!(back.get_header(b"name").unwrap().as_slice(), b"value");
    assert_eq!(back.get_header(b"other").unwrap().as_slice(), b"x y z");
    assert_eq!(back.get_payload().unwrap().as_slice(), &[0, 255, 58, 58, 7]);
}

#[test]
fn round_trip_keeps_multibyte_text() {
    let mut pkt = Packet::new();
    pkt.set_header("file".as_bytes(), "caf\u{e9} \u{1F600}.txt".as_bytes());
    let bytes = pkt.as_bytes();
    let back = Packet::from_bytes(&bytes).unwrap();
    assert_eq!(
        back.get_header(b"file").unwrap().as_slice(),
        "caf\u{e9} \u{1F600}.txt".as_bytes()
    );
}

#[test]
fn missing_separator_is_an_error() {
    let r = Packet::from_bytes(b"a=1\nb=2\n");
    assert!(matches!(r, Err(PacketParseError::MissingSectionsSeparator)));
    let r = Packet::from_bytes(b"");
    assert!(matches!(r, Err(PacketParseError::MissingSectionsSeparator)));
    let r = Packet::from_bytes(b":a:b:c:");
    assert!(matches!(r, Err(PacketParseError::MissingSectionsSeparator)));
}

#[test]
fn invalid_text_before_separator_is_an_error() {
    let r = Packet::from_bytes(b"a=\xff\n::");
    assert!(matches!(r, Err(PacketParseError::InvalidUtf8)));
    // A truncated multibyte sequence is also rejected.
    let r = Packet::from_bytes(b"a=\xc3\n::");
    assert!(matches!(r, Err(PacketParseError::InvalidUtf8)));
}

#[test]
fn invalid_bytes_after_separator_are_no_error() {
    let pkt = Packet::from_bytes(b"a=1\n::\xff\xfe").unwrap();
    assert_eq!(pkt.get_payload().unwrap().as_slice(), b"\xff\xfe");
}

#[test]
fn lines_without_a_header_separator_are_dropped() {
    let pkt = Packet::from_bytes(b"a=1\nnoise\nb=2\n::").unwrap();
    assert_eq!(pkt.get_header(b"a").unwrap().as_slice(), b"1");
    assert_eq!(pkt.get_header(b"b").unwrap().as_slice(), b"2");
    assert!(pkt.get_header(b"noise").is_none());
}

#[test]
fn later_duplicate_header_wins_on_decode() {
    let pkt = Packet::from_bytes(b"a=1\na=2\n::").unwrap();
    assert_eq!(pkt.get_header(b"a").unwrap().as_slice(), b"2");
}

#[test]
fn value_keeps_everything_after_first_header_separator() {
    let pkt = Packet::from_bytes(b"a=1=2\n::").unwrap();
    assert_eq!(pkt.get_header(b"a").unwrap().as_slice(), b"1=2");
}

#[test]
fn payload_is_empty_but_present_when_nothing_follows_separator() {
    let pkt = Packet::from_bytes(b"a=1\n::").unwrap();
    assert_eq!(pkt.get_payload().unwrap().as_slice(), b"");
}

#[test]
fn first_separator_occurrence_splits_the_packet() {
    // The payload may itself contain the separator sequence.
    let pkt = Packet::from_bytes(b"a=1\n::tail::more").unwrap();
    assert_eq!(pkt.get_payload().unwrap().as_slice(), b"tail::more");
}

#[test]
fn new_packet_has_no_headers_and_no_payload() {
    let pkt = Packet::new();
    assert!(pkt.get_header(b"a").is_none());
    assert!(pkt.get_payload().is_none());
}
