use landrop::addr::{Ipv4Address, PeerAddress};
use landrop::announcement::{Announcement, InvalidAnnouncement};
use landrop::discovery::{handle_datagram, process_datagram};
use landrop::registry::PeerRegistry;

fn addr(a: u8, b: u8, c: u8, d: u8, port: u16) -> PeerAddress {
    PeerAddress::new(Ipv4Address::new(a, b, c, d), port)
}

#[test]
fn registry_starts_empty() {
    let reg = PeerRegistry::new();
    assert!(reg.peer_ids().is_none());
    assert!(reg.peer_addresses().is_none());
    assert!(reg.find(1).is_none());
}

#[test]
fn last_write_wins_for_one_id() {
    let mut reg = PeerRegistry::new();
    let a = addr(10, 0, 0, 1, 25802);
    let b = addr(10, 0, 0, 2, 25802);
    reg.upsert(7, a);
    reg.upsert(7, b);
    assert_eq!(reg.find(7), Some(b));
    assert_eq!(reg.peer_ids().unwrap(), vec![7]);
    assert_eq!(reg.peer_addresses().unwrap(), vec![b]);
}

#[test]
fn reannouncement_keeps_the_entry_order() {
    let mut reg = PeerRegistry::new();
    reg.upsert(1, addr(10, 0, 0, 1, 25802));
    reg.upsert(2, addr(10, 0, 0, 2, 25802));
    reg.upsert(1, addr(10, 0, 0, 9, 25802));
    assert_eq!(reg.peer_ids().unwrap(), vec![1, 2]);
    assert_eq!(
        reg.peer_addresses().unwrap(),
        vec![addr(10, 0, 0, 9, 25802), addr(10, 0, 0, 2, 25802)]
    );
}

#[test]
fn registry_keeps_every_peer() {
    let mut reg = PeerRegistry::new();
    reg.upsert(1, addr(10, 0, 0, 1, 25802));
    reg.upsert(2, addr(10, 0, 0, 2, 25802));
    reg.upsert(3, addr(10, 0, 0, 1, 25802));
    assert_eq!(reg.peer_ids().unwrap(), vec![1, 2, 3]);
    assert_eq!(
        reg.peer_addresses().unwrap(),
        vec![addr(10, 0, 0, 1, 25802), addr(10, 0, 0, 2, 25802), addr(10, 0, 0, 1, 25802)]
    );
    assert_eq!(reg.find(2), Some(addr(10, 0, 0, 2, 25802)));
    assert!(reg.find(4).is_none());
}

#[test]
fn unspecified_announced_ip_is_replaced_by_the_senders() {
    let bytes = Announcement::new(9, addr(0, 0, 0, 0, 25802)).as_bytes();
    let sender = Ipv4Address::new(192, 168, 1, 20);
    let ann = process_datagram(&bytes, sender).unwrap();
    assert_eq!(ann.peer_id, 9);
    assert_eq!(ann.peer_addr, addr(192, 168, 1, 20, 25802));
}

#[test]
fn specified_announced_ip_is_kept() {
    let bytes = Announcement::new(9, addr(10, 0, 0, 5, 25802)).as_bytes();
    let sender = Ipv4Address::new(192, 168, 1, 20);
    let ann = process_datagram(&bytes, sender).unwrap();
    assert_eq!(ann.peer_addr, addr(10, 0, 0, 5, 25802));
}

#[test]
fn listener_step_records_the_peer() {
    let mut reg = PeerRegistry::new();
    let sender = Ipv4Address::new(192, 168, 1, 20);
    let bytes = Announcement::new(9, addr(0, 0, 0, 0, 25802)).as_bytes();
    handle_datagram(&mut reg, &bytes, sender).unwrap();
    assert_eq!(reg.find(9), Some(addr(192, 168, 1, 20, 25802)));
}

#[test]
fn listener_step_ignores_bad_datagrams() {
    let mut reg = PeerRegistry::new();
    let sender = Ipv4Address::new(192, 168, 1, 20);
    let r = handle_datagram(&mut reg, b"not a packet", sender);
    assert!(matches!(r, Err(InvalidAnnouncement::InvalidPacket(_))));
    assert!(reg.peer_ids().is_none());
    // A later valid announcement is still served.
    let bytes = Announcement::new(3, addr(10, 0, 0, 4, 25802)).as_bytes();
    handle_datagram(&mut reg, &bytes, sender).unwrap();
    assert_eq!(reg.find(3), Some(addr(10, 0, 0, 4, 25802)));
}
