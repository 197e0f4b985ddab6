//! Peer network addresses: an IPv4 address and a TCP port, written on the
//! wire as `a.b.c.d:port` with every number in canonical decimal (no sign,
//! no leading zero).

use vstd::prelude::*;

use crate::decimal::{
    all_digits, dec_bytes, dec_value, format_u64, is_digit, lemma_dec_bytes_canonical,
    lemma_dec_bytes_len, lemma_dec_bytes_value, lemma_dec_value_bound, parse_u64_digits, pow10,
    DIGIT_ZERO,
};
use crate::text::{find_byte, find_byte_from, lemma_find_byte_from_exact, no_byte};

verus! {

/// Separates the octets of an IPv4 address: `.`.
pub const OCTET_SEPARATOR: u8 = 46;

/// Separates the IP address from the port: `:`.
pub const PORT_SEPARATOR: u8 = 58;

/// An IPv4 address as its four octets.
#[derive(Clone, Copy, Debug, PartialEq, Eq, Hash, Structural)]
pub struct Ipv4Address {
    pub o0: u8,
    pub o1: u8,
    pub o2: u8,
    pub o3: u8,
}

impl Ipv4Address {
    /// Builds the address `o0.o1.o2.o3`.
    pub fn new(o0: u8, o1: u8, o2: u8, o3: u8) -> (r: Ipv4Address)
        ensures
            r == (Ipv4Address { o0, o1, o2, o3 }),
    {
        Ipv4Address { o0, o1, o2, o3 }
    }

    /// Whether this is the unspecified address `0.0.0.0`.
    pub open spec fn spec_is_unspecified(&self) -> bool {
        self.o0 == 0 && self.o1 == 0 && self.o2 == 0 && self.o3 == 0
    }

    /// Whether this is the unspecified address `0.0.0.0`.
    pub fn is_unspecified(&self) -> (r: bool)
        ensures
            r == self.spec_is_unspecified(),
    {
        self.o0 == 0 && self.o1 == 0 && self.o2 == 0 && self.o3 == 0
    }
}

/// Where a peer accepts file transfers: an IPv4 address and a TCP port.
#[derive(Clone, Copy, Debug, PartialEq, Eq, Hash, Structural)]
pub struct PeerAddress {
    pub ip: Ipv4Address,
    pub port: u16,
}

impl PeerAddress {
    /// Builds the address `ip:port`.
    pub fn new(ip: Ipv4Address, port: u16) -> (r: PeerAddress)
        ensures
            r == (PeerAddress { ip, port }),
    {
        PeerAddress { ip, port }
    }

    /// Replaces the IP address, keeping the port.
    pub fn set_ip(&mut self, ip: Ipv4Address)
        ensures
            final(self).ip == ip,
            final(self).port == old(self).port,
    {
        self.ip = ip;
    }
}

/// The wire form of an IPv4 address: `a.b.c.d`, canonical decimal.
pub open spec fn ipv4_bytes(ip: Ipv4Address) -> Seq<u8> {
    dec_bytes(ip.o0 as int) + seq![OCTET_SEPARATOR] + dec_bytes(ip.o1 as int) + seq![
        OCTET_SEPARATOR,
    ] + dec_bytes(ip.o2 as int) + seq![OCTET_SEPARATOR] + dec_bytes(ip.o3 as int)
}

/// The wire form of a peer address: `a.b.c.d:port`, canonical decimal.
pub open spec fn addr_bytes(a: PeerAddress) -> Seq<u8> {
    ipv4_bytes(a.ip) + seq![PORT_SEPARATOR] + dec_bytes(a.port as int)
}

/// Writes `a` in its wire form.
pub fn format_addr(a: &PeerAddress) -> (r: Vec<u8>)
    ensures
        r@ == addr_bytes(*a),
{
    let mut out = format_u64(a.ip.o0 as u64);
    out.push(OCTET_SEPARATOR);
    let mut part = format_u64(a.ip.o1 as u64);
    out.append(&mut part);
    out.push(OCTET_SEPARATOR);
    let mut part = format_u64(a.ip.o2 as u64);
    out.append(&mut part);
    out.push(OCTET_SEPARATOR);
    let mut part = format_u64(a.ip.o3 as u64);
    out.append(&mut part);
    out.push(PORT_SEPARATOR);
    let mut part = format_u64(a.port as u64);
    out.append(&mut part);
    proof {
        assert(out@ =~= addr_bytes(*a));
    }
    out
}

/// A valid octet string: one to three digits, no leading zero, at most 255.
pub open spec fn valid_octet(s: Seq<u8>) -> bool {
    &&& all_digits(s)
    &&& 1 <= s.len() <= 3
    &&& (s.len() == 1 || s[0] != DIGIT_ZERO)
    &&& dec_value(s) <= 255
}

/// A valid port string: one to five digits, no leading zero, at most 65535.
pub open spec fn valid_port(s: Seq<u8>) -> bool {
    &&& all_digits(s)
    &&& 1 <= s.len() <= 5
    &&& (s.len() == 1 || s[0] != DIGIT_ZERO)
    &&& dec_value(s) <= 65535
}

/// What parsing an IPv4 address accepts: four valid octet strings joined by
/// `.`, split at the first `.` three times.
pub open spec fn parse_ipv4_spec(s: Seq<u8>) -> Option<Ipv4Address> {
    match find_byte_from(s, OCTET_SEPARATOR, 0) {
        None => None,
        Some(p1) => {
            let s0 = s.take(p1);
            let r1 = s.skip(p1 + 1);
            match find_byte_from(r1, OCTET_SEPARATOR, 0) {
                None => None,
                Some(p2) => {
                    let s1 = r1.take(p2);
                    let r2 = r1.skip(p2 + 1);
                    match find_byte_from(r2, OCTET_SEPARATOR, 0) {
                        None => None,
                        Some(p3) => {
                            let s2 = r2.take(p3);
                            let s3 = r2.skip(p3 + 1);
                            if valid_octet(s0) && valid_octet(s1) && valid_octet(s2)
                                && valid_octet(s3) {
                                Some(
                                    Ipv4Address {
                                        o0: dec_value(s0) as u8,
                                        o1: dec_value(s1) as u8,
                                        o2: dec_value(s2) as u8,
                                        o3: dec_value(s3) as u8,
                                    },
                                )
                            } else {
                                None
                            }
                        },
                    }
                },
            }
        },
    }
}

/// What parsing a peer address accepts: an IPv4 address, `:`, a valid port
/// string, split at the first `:`.
pub open spec fn parse_addr_spec(s: Seq<u8>) -> Option<PeerAddress> {
    match find_byte_from(s, PORT_SEPARATOR, 0) {
        None => None,
        Some(c) => {
            let ip_part = s.take(c);
            let port_part = s.skip(c + 1);
            match parse_ipv4_spec(ip_part) {
                None => None,
                Some(ip) => {
                    if valid_port(port_part) {
                        Some(PeerAddress { ip, port: dec_value(port_part) as u16 })
                    } else {
                        None
                    }
                },
            }
        },
    }
}

/// Reads an octet: one to three digits, no leading zero, at most 255.
fn parse_octet(s: &[u8]) -> (r: Option<u8>)
    ensures
        r is Some <==> valid_octet(s@),
        r matches Some(v) ==> v == dec_value(s@),
{
    let n = s.len();
    if n == 0 || n > 3 {
        return None;
    }
    if n > 1 && s[0] == DIGIT_ZERO {
        return None;
    }
    proof {
        if all_digits(s@) {
            lemma_dec_value_bound(s@);
            assert(pow10(0) == 1);
            assert(pow10(1) == 10);
            assert(pow10(2) == 100);
            assert(pow10(3) == 1000);
            assert(dec_value(s@) < 1000);
        }
    }
    match parse_u64_digits(s) {
        Some(v) => {
            if v <= 255 {
                Some(v as u8)
            } else {
                None
            }
        },
        None => None,
    }
}

/// Reads a port: one to five digits, no leading zero, at most 65535.
fn parse_port(s: &[u8]) -> (r: Option<u16>)
    ensures
        r is Some <==> valid_port(s@),
        r matches Some(v) ==> v == dec_value(s@),
{
    let n = s.len();
    if n == 0 || n > 5 {
        return None;
    }
    if n > 1 && s[0] == DIGIT_ZERO {
        return None;
    }
    proof {
        if all_digits(s@) {
            lemma_dec_value_bound(s@);
            assert(pow10(0) == 1);
            assert(pow10(1) == 10);
            assert(pow10(2) == 100);
            assert(pow10(3) == 1000);
            assert(pow10(4) == 10000);
            assert(pow10(5) == 100000);
            assert(dec_value(s@) < 100000);
        }
    }
    match parse_u64_digits(s) {
        Some(v) => {
            if v <= 65535 {
                Some(v as u16)
            } else {
                None
            }
        },
        None => None,
    }
}

/// Reads an IPv4 address in its wire form.
pub fn parse_ipv4(s: &[u8]) -> (r: Option<Ipv4Address>)
    ensures
        r == parse_ipv4_spec(s@),
{
    let n = s.len();
    let p1 = match find_byte(s, OCTET_SEPARATOR, 0) {
        Some(p) => p,
        None => {
            return None;
        },
    };
    let o0 = match parse_octet(&s[0..p1]) {
        Some(v) => v,
        None => {
            proof {
                assert(s@.subrange(0, p1 as int) =~= s@.take(p1 as int));
            }
            return None;
        },
    };
    proof {
        assert(s@.subrange(0, p1 as int) =~= s@.take(p1 as int));
    }
    let r1 = &s[(p1 + 1)..n];
    proof {
        assert(r1@ =~= s@.skip(p1 + 1));
    }
    let p2 = match find_byte(r1, OCTET_SEPARATOR, 0) {
        Some(p) => p,
        None => {
            return None;
        },
    };
    let o1 = match parse_octet(&r1[0..p2]) {
        Some(v) => v,
        None => {
            proof {
                assert(r1@.subrange(0, p2 as int) =~= r1@.take(p2 as int));
            }
            return None;
        },
    };
    proof {
        assert(r1@.subrange(0, p2 as int) =~= r1@.take(p2 as int));
    }
    let m = r1.len();
    let r2 = &r1[(p2 + 1)..m];
    proof {
        assert(r2@ =~= r1@.skip(p2 + 1));
    }
    let p3 = match find_byte(r2, OCTET_SEPARATOR, 0) {
        Some(p) => p,
        None => {
            return None;
        },
    };
    let o2 = match parse_octet(&r2[0..p3]) {
        Some(v) => v,
        None => {
            proof {
                assert(r2@.subrange(0, p3 as int) =~= r2@.take(p3 as int));
            }
            return None;
        },
    };
    proof {
        assert(r2@.subrange(0, p3 as int) =~= r2@.take(p3 as int));
    }
    let k = r2.len();
    let o3 = match parse_octet(&r2[(p3 + 1)..k]) {
        Some(v) => v,
        None => {
            proof {
                assert(r2@.subrange(p3 + 1, k as int) =~= r2@.skip(p3 + 1));
            }
            return None;
        },
    };
    proof {
        assert(r2@.subrange(p3 + 1, k as int) =~= r2@.skip(p3 + 1));
    }
    Some(Ipv4Address { o0, o1, o2, o3 })
}

/// A valid octet string, and its value, for any octet.
proof fn lemma_valid_octet_of(o: int)
    requires
        0 <= o <= 255,
    ensures
        valid_octet(dec_bytes(o)),
        dec_value(dec_bytes(o)) == o,
        no_byte(dec_bytes(o), OCTET_SEPARATOR),
        no_byte(dec_bytes(o), PORT_SEPARATOR),
{
    lemma_dec_bytes_canonical(o);
    lemma_dec_bytes_len(o);
    lemma_dec_bytes_value(o);
}

/// A valid port string, and its value, for any port.
proof fn lemma_valid_port_of(p: int)
    requires
        0 <= p <= 65535,
    ensures
        valid_port(dec_bytes(p)),
        dec_value(dec_bytes(p)) == p,
{
    lemma_dec_bytes_canonical(p);
    lemma_dec_bytes_len(p);
    lemma_dec_bytes_value(p);
}

/// The wire form of an IPv4 address holds digits and octet separators only.
proof fn lemma_ipv4_bytes_chars(ip: Ipv4Address)
    ensures
        forall|j: int|
            0 <= j < ipv4_bytes(ip).len() ==> (is_digit(#[trigger] ipv4_bytes(ip)[j]) || ipv4_bytes(
                ip,
            )[j] == OCTET_SEPARATOR),
{
    let d0 = dec_bytes(ip.o0 as int);
    let d1 = dec_bytes(ip.o1 as int);
    let d2 = dec_bytes(ip.o2 as int);
    let d3 = dec_bytes(ip.o3 as int);
    lemma_dec_bytes_canonical(ip.o0 as int);
    lemma_dec_bytes_canonical(ip.o1 as int);
    lemma_dec_bytes_canonical(ip.o2 as int);
    lemma_dec_bytes_canonical(ip.o3 as int);
    let l0 = d0.len() as int;
    let l1 = d1.len() as int;
    let l2 = d2.len() as int;
    assert forall|j: int| 0 <= j < ipv4_bytes(ip).len() implies (is_digit(
        #[trigger] ipv4_bytes(ip)[j],
    ) || ipv4_bytes(ip)[j] == OCTET_SEPARATOR) by {
        let b = ipv4_bytes(ip);
        if j < l0 {
            assert(b[j] == d0[j]);
        } else if j == l0 {
            assert(b[j] == OCTET_SEPARATOR);
        } else if j < l0 + 1 + l1 {
            assert(b[j] == d1[j - l0 - 1]);
        } else if j == l0 + 1 + l1 {
            assert(b[j] == OCTET_SEPARATOR);
        } else if j < l0 + 1 + l1 + 1 + l2 {
            assert(b[j] == d2[j - l0 - 1 - l1 - 1]);
        } else if j == l0 + 1 + l1 + 1 + l2 {
            assert(b[j] == OCTET_SEPARATOR);
        } else {
            assert(b[j] == d3[j - l0 - 1 - l1 - 1 - l2 - 1]);
        }
    }
}

/// Splitting a group off at the first separator, when the group itself
/// holds none.
proof fn lemma_split_first_group(d: Seq<u8>, sep: u8, rest: Seq<u8>)
    requires
        no_byte(d, sep),
    ensures
        ({
            let s = d + seq![sep] + rest;
            find_byte_from(s, sep, 0) == Some(d.len() as int) && s.take(d.len() as int) == d
                && s.skip(d.len() as int + 1) == rest
        }),
{
    let s = d + seq![sep] + rest;
    assert(s[d.len() as int] == sep);
    assert forall|j: int| 0 <= j < d.len() implies s[j] != sep by {
        assert(s[j] == d[j]);
    }
    lemma_find_byte_from_exact(s, sep, 0, d.len() as int);
    assert(s.take(d.len() as int) =~= d);
    assert(s.skip(d.len() as int + 1) =~= rest);
}

/// The round trip of the IPv4 wire form: formatting any address and parsing
/// it back yields the same address.
proof fn lemma_ipv4_round_trip(ip: Ipv4Address)
    ensures
        parse_ipv4_spec(ipv4_bytes(ip)) == Some(ip),
{
    let d0 = dec_bytes(ip.o0 as int);
    let d1 = dec_bytes(ip.o1 as int);
    let d2 = dec_bytes(ip.o2 as int);
    let d3 = dec_bytes(ip.o3 as int);
    lemma_valid_octet_of(ip.o0 as int);
    lemma_valid_octet_of(ip.o1 as int);
    lemma_valid_octet_of(ip.o2 as int);
    lemma_valid_octet_of(ip.o3 as int);
    let b = ipv4_bytes(ip);
    let r2 = d2 + seq![OCTET_SEPARATOR] + d3;
    let r1 = d1 + seq![OCTET_SEPARATOR] + r2;
    assert(b =~= d0 + seq![OCTET_SEPARATOR] + r1);
    lemma_split_first_group(d0, OCTET_SEPARATOR, r1);
    lemma_split_first_group(d1, OCTET_SEPARATOR, r2);
    lemma_split_first_group(d2, OCTET_SEPARATOR, d3);
}

/// The round trip of the address wire form: formatting any peer address and
/// parsing it back yields the same address.
pub proof fn lemma_addr_round_trip(a: PeerAddress)
    ensures
        parse_addr_spec(addr_bytes(a)) == Some(a),
{
    let ipb = ipv4_bytes(a.ip);
    let dp = dec_bytes(a.port as int);
    let b = addr_bytes(a);
    let li = ipb.len() as int;
    lemma_ipv4_bytes_chars(a.ip);
    lemma_valid_port_of(a.port as int);
    assert(b[li] == PORT_SEPARATOR);
    assert forall|j: int| 0 <= j < li implies b[j] != PORT_SEPARATOR by {
        assert(b[j] == ipb[j]);
        assert(is_digit(ipb[j]) || ipb[j] == OCTET_SEPARATOR);
    }
    lemma_find_byte_from_exact(b, PORT_SEPARATOR, 0, li);
    assert(b.take(li) =~= ipb);
    assert(b.skip(li + 1) =~= dp);
    lemma_ipv4_round_trip(a.ip);
}

/// The wire form of a peer address holds digits, octet separators and one
/// port separator, which stands right after the IP part.
pub proof fn lemma_addr_bytes_chars(a: PeerAddress)
    ensures
        forall|j: int|
            0 <= j < addr_bytes(a).len() ==> (is_digit(#[trigger] addr_bytes(a)[j]) || addr_bytes(
                a,
            )[j] == OCTET_SEPARATOR || addr_bytes(a)[j] == PORT_SEPARATOR),
        forall|j: int|
            0 <= j < addr_bytes(a).len() && #[trigger] addr_bytes(a)[j] == PORT_SEPARATOR ==> j
                == ipv4_bytes(a.ip).len(),
{
    let ipb = ipv4_bytes(a.ip);
    let dp = dec_bytes(a.port as int);
    let li = ipb.len() as int;
    lemma_ipv4_bytes_chars(a.ip);
    lemma_dec_bytes_canonical(a.port as int);
    assert forall|j: int| 0 <= j < addr_bytes(a).len() implies (is_digit(
        #[trigger] addr_bytes(a)[j],
    ) || addr_bytes(a)[j] == OCTET_SEPARATOR || addr_bytes(a)[j] == PORT_SEPARATOR) && (addr_bytes(
        a,
    )[j] == PORT_SEPARATOR ==> j == li) by {
        let b = addr_bytes(a);
        if j < li {
            assert(b[j] == ipb[j]);
            assert(is_digit(ipb[j]) || ipb[j] == OCTET_SEPARATOR);
        } else if j == li {
            assert(b[j] == PORT_SEPARATOR);
        } else {
            assert(b[j] == dp[j - li - 1]);
        }
    }
}

/// Reads a peer address in its wire form, as the `addr` announcement header
/// holds it.
pub fn parse_addr(s: &[u8]) -> (r: Option<PeerAddress>)
    ensures
        r == parse_addr_spec(s@),
{
    let n = s.len();
    let c = match find_byte(s, PORT_SEPARATOR, 0) {
        Some(p) => p,
        None => {
            return None;
        },
    };
    let ip = match parse_ipv4(&s[0..c]) {
        Some(v) => v,
        None => {
            proof {
                assert(s@.subrange(0, c as int) =~= s@.take(c as int));
            }
            return None;
        },
    };
    proof {
        assert(s@.subrange(0, c as int) =~= s@.take(c as int));
    }
    let port = match parse_port(&s[(c + 1)..n]) {
        Some(v) => v,
        None => {
            proof {
                assert(s@.subrange(c + 1, n as int) =~= s@.skip(c + 1));
            }
            return None;
        },
    };
    proof {
        assert(s@.subrange(c + 1, n as int) =~= s@.skip(c + 1));
    }
    Some(PeerAddress { ip, port })
}

} // verus!
