use landrop::addr::{Ipv4Address, PeerAddress};
use landrop::packet::PacketParseError;
use landrop::transfer::{send_outcome, FilePacket, SendAttempt, TransferError};

fn addr(a: u8, b: u8, c: u8, d: u8, port: u16) -> PeerAddress {
    PeerAddress::new(Ipv4Address::new(a, b, c, d), port)
}

#[test]
fn file_packet_encodes_exactly() {
    let pkt = FilePacket::from_parts(b"a.txt", vec![1, 2, 3]);
    assert_eq!(pkt.as_owned_bytes(), b"file_name=a.txt\n::\x01\x02\x03".to_vec());
}

#[test]
fn file_packet_round_trips() {
    let pkt = FilePacket::from_parts(b"a.txt", vec![1, 2, 3]);
    let bytes = pkt.as_owned_bytes();
    let back = FilePacket::from_bytes(&bytes).unwrap();
    assert_eq!(back.get_file_name(), b"a.txt".to_vec());
    assert_eq!(back.get_contents(), vec![1, 2, 3]);
}

#[test]
fn empty_file_round_trips() {
    let pkt = FilePacket::from_parts(b"empty.bin", Vec::new());
    let back = FilePacket::from_bytes(&pkt.as_owned_bytes()).unwrap();
    assert_eq!(back.get_file_name(), b"empty.bin".to_vec());
    assert_eq!(back.get_contents(), Vec::<u8>::new());
}

#[test]
fn contents_with_separator_bytes_round_trip() {
    let body = b"::\n=::".to_vec();
    let pkt = FilePacket::from_parts(b"odd", body.clone());
    let back = FilePacket::from_bytes(&pkt.as_owned_bytes()).unwrap();
    assert_eq!(back.get_contents(), body);
}

#[test]
fn a_stream_without_separator_is_no_file_packet() {
    let r = FilePacket::from_bytes(b"just some bytes, no separator");
    assert!(matches!(r, Err(PacketParseError::MissingSectionsSeparator)));
}

#[test]
fn a_packet_without_file_name_defaults_to_undefined() {
    let pkt = FilePacket::from_bytes(b"x=1\n::abc").unwrap();
    assert_eq!(pkt.get_file_name(), b"undefined".to_vec());
    assert_eq!(pkt.get_contents(), b"abc".to_vec());
}

#[test]
fn all_destinations_served_is_a_success() {
    let attempts = vec![
        SendAttempt { addr: addr(10, 0, 0, 1, 25802), error: None },
        SendAttempt { addr: addr(10, 0, 0, 2, 25802), error: None },
    ];
    assert!(send_outcome(attempts).is_ok());
    assert!(send_outcome(Vec::new()).is_ok());
}

#[test]
fn failed_destinations_are_named_and_only_them() {
    let good = addr(10, 0, 0, 1, 25802);
    let bad = addr(10, 0, 0, 2, 25802);
    let attempts = vec![
        SendAttempt { addr: good, error: None },
        SendAttempt { addr: bad, error: Some(String::from("connection refused")) },
    ];
    match send_outcome(attempts) {
        Err(TransferError::Failed(f)) => {
            assert_eq!(f.len(), 1);
            assert_eq!(f[0].addr, bad);
            assert_eq!(f[0].reason, "connection refused");
        },
        _ => panic!("expected an aggregate failure"),
    }
}

#[test]
fn failures_keep_attempt_order() {
    let a1 = addr(10, 0, 0, 1, 1);
    let a2 = addr(10, 0, 0, 2, 2);
    let a3 = addr(10, 0, 0, 3, 3);
    let attempts = vec![
        SendAttempt { addr: a1, error: Some(String::from("e1")) },
        SendAttempt { addr: a2, error: None },
        SendAttempt { addr: a3, error: Some(String::from("e3")) },
    ];
    match send_outcome(attempts) {
        Err(TransferError::Failed(f)) => {
            assert_eq!(f.len(), 2);
            assert_eq!(f[0].addr, a1);
            assert_eq!(f[0].reason, "e1");
            assert_eq!(f[1].addr, a3);
            assert_eq!(f[1].reason, "e3");
        },
        _ => panic!("expected an aggregate failure"),
    }
}
