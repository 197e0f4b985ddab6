//! File transfer: the packet that carries one file, and the aggregate
//! outcome of sending it to several peers.
//!
//! Reading the file, opening the TCP connections and writing the bytes live
//! in the application; it hands this module the file name and contents, and
//! hands back one outcome per destination.

use vstd::prelude::*;

use crate::addr::PeerAddress;
use crate::packet::{
    copy_bytes, decode_err, decode_ok, decoded_headers_of, decoded_payload_of, encodable_header,
    encodable_headers, lemma_header_index_from, lemma_packet_round_trip, lookup_header,
    packet_bytes, sep_at, unique_header_names, upsert_header, Packet, PacketParseError,
    LINE_SEPARATOR,
};
use crate::text::{is_utf8, lemma_ascii_is_utf8, no_byte};

verus! {

/// The name of the header carrying the file name: `file_name`.
pub open spec fn file_name_header_name() -> Seq<u8> {
    seq![102u8, 105u8, 108u8, 101u8, 95u8, 110u8, 97u8, 109u8, 101u8]
}

/// The fallback when a packet carries no file name: `undefined`.
pub open spec fn undefined_file_name() -> Seq<u8> {
    seq![117u8, 110u8, 100u8, 101u8, 102u8, 105u8, 110u8, 101u8, 100u8]
}

/// The header name `file_name` as bytes.
fn file_name_header_bytes() -> (r: Vec<u8>)
    ensures
        r@ == file_name_header_name(),
{
    let mut v: Vec<u8> = Vec::new();
    v.push(102);
    v.push(105);
    v.push(108);
    v.push(101);
    v.push(95);
    v.push(110);
    v.push(97);
    v.push(109);
    v.push(101);
    proof {
        assert(v@ =~= file_name_header_name());
    }
    v
}

/// The fallback file name as bytes.
fn undefined_file_name_bytes() -> (r: Vec<u8>)
    ensures
        r@ == undefined_file_name(),
{
    let mut v: Vec<u8> = Vec::new();
    v.push(117);
    v.push(110);
    v.push(100);
    v.push(101);
    v.push(102);
    v.push(105);
    v.push(110);
    v.push(101);
    v.push(100);
    proof {
        assert(v@ =~= undefined_file_name());
    }
    v
}

/// The headers of a file packet: the one header `file_name`.
pub open spec fn file_headers(name: Seq<u8>) -> Seq<(Seq<u8>, Seq<u8>)> {
    seq![(file_name_header_name(), name)]
}

/// The file name a decoded header map carries, or the fallback.
pub open spec fn file_name_of(hs: Seq<(Seq<u8>, Seq<u8>)>) -> Seq<u8> {
    match lookup_header(hs, file_name_header_name()) {
        Some(v) => v,
        None => undefined_file_name(),
    }
}

/// A packet carrying one file: its name in the `file_name` header, its
/// contents as the payload.
pub struct FilePacket(Packet);

impl FilePacket {
    /// The packet's headers.
    pub closed spec fn headers_view(&self) -> Seq<(Seq<u8>, Seq<u8>)> {
        self.0.headers_view()
    }

    /// The file contents the packet carries.
    pub closed spec fn contents_view(&self) -> Seq<u8> {
        self.0.payload_bytes()
    }

    /// No two headers share a name.
    pub closed spec fn wf(&self) -> bool {
        self.0.wf()
    }

    /// Builds the packet that carries the file `file_name` with `contents`.
    pub fn from_parts(file_name: &[u8], contents: Vec<u8>) -> (r: FilePacket)
        ensures
            r.headers_view() == file_headers(file_name@),
            r.contents_view() == contents@,
            r.wf(),
    {
        let mut pkt = Packet::new();
        pkt.set_header(file_name_header_bytes().as_slice(), file_name);
        pkt.set_payload(contents);
        proof {
            let first = upsert_header(
                Seq::<(Seq<u8>, Seq<u8>)>::empty(),
                file_name_header_name(),
                file_name@,
            );
            assert(first =~= file_headers(file_name@));
        }
        FilePacket(pkt)
    }

    /// Reconstructs a file packet from the bytes a connection delivered.
    pub fn from_bytes(bytes: &[u8]) -> (r: Result<FilePacket, PacketParseError>)
        ensures
            match r {
                Ok(p) => decode_ok(bytes@) && p.wf() && p.headers_view() == decoded_headers_of(
                    bytes@,
                ) && p.contents_view() == decoded_payload_of(bytes@),
                Err(e) => !decode_ok(bytes@) && e == decode_err(bytes@),
            },
    {
        match Packet::from_bytes(bytes) {
            Ok(p) => Ok(FilePacket(p)),
            Err(e) => Err(e),
        }
    }

    /// The name of the file, or `undefined` when the packet carries none.
    pub fn get_file_name(&self) -> (r: Vec<u8>)
        ensures
            r@ == file_name_of(self.headers_view()),
    {
        match self.0.get_header(file_name_header_bytes().as_slice()) {
            Some(v) => copy_bytes(v.as_slice()),
            None => undefined_file_name_bytes(),
        }
    }

    /// The contents of the file, or empty when the packet carries none.
    pub fn get_contents(&self) -> (r: Vec<u8>)
        ensures
            r@ == self.contents_view(),
    {
        match self.0.get_payload() {
            Some(v) => copy_bytes(v.as_slice()),
            None => Vec::new(),
        }
    }

    /// Serializes the packet into the bytes written to each destination.
    pub fn as_owned_bytes(&self) -> (r: Vec<u8>)
        ensures
            r@ == packet_bytes(self.headers_view(), self.contents_view()),
    {
        self.0.as_bytes()
    }
}

/// The file packet round trip: the serialized packet of any file whose name
/// survives the packet grammar (no line break, no embedded section
/// separator, UTF-8) decodes back to the same name and contents.
pub proof fn lemma_file_packet_round_trip(name: Seq<u8>, contents: Seq<u8>)
    requires
        no_byte(name, LINE_SEPARATOR),
        forall|i: int| !sep_at(name, i),
        is_utf8(name),
    ensures
        ({
            let b = packet_bytes(file_headers(name), contents);
            &&& decode_ok(b)
            &&& file_name_of(decoded_headers_of(b)) == name
            &&& decoded_payload_of(b) == contents
        }),
{
    let hs = file_headers(name);
    lemma_ascii_is_utf8(file_name_header_name());
    assert forall|i: int| !sep_at(file_name_header_name(), i) by {}
    assert(encodable_header(hs[0].0, hs[0].1));
    assert(encodable_headers(hs));
    lemma_packet_round_trip(hs, contents);
    lemma_header_index_from(hs, file_name_header_name(), 0);
    assert(lookup_header(hs, file_name_header_name()) == Some(name));
}

/// One destination's outcome as the application reports it: the address it
/// tried, and the text of the I/O error where the write failed.
pub struct SendAttempt {
    pub addr: PeerAddress,
    pub error: Option<String>,
}

/// One destination that could not be served: its address and the error text.
#[derive(Debug)]
pub struct SendFailure {
    pub addr: PeerAddress,
    pub reason: String,
}

/// How sending a file can fail.
#[derive(Debug)]
pub enum TransferError {
    /// The given path does not name a regular file.
    NotAFile,
    /// The file could not be read; the error's text.
    FileRead(String),
    /// Some destinations could not be served; each with its error.
    Failed(Vec<SendFailure>),
}

/// The failures among a sequence of attempts, in order.
pub open spec fn failures_of(s: Seq<SendAttempt>) -> Seq<SendFailure>
    decreases s.len(),
{
    if s.len() == 0 {
        Seq::empty()
    } else {
        let rest = failures_of(s.skip(1));
        match s[0].error {
            Some(e) => seq![SendFailure { addr: s[0].addr, reason: e }] + rest,
            None => rest,
        }
    }
}

/// The aggregate outcome of one send: success when every destination was
/// served, else the failed destinations, each named with its error, in the
/// order they were attempted.
pub fn send_outcome(attempts: Vec<SendAttempt>) -> (r: Result<(), TransferError>)
    ensures
        match r {
            Ok(_) => failures_of(attempts@).len() == 0,
            Err(TransferError::Failed(f)) => f@ == failures_of(attempts@) && f@.len() > 0,
            Err(_) => false,
        },
{
    let ghost orig = attempts@;
    let mut rest = attempts;
    let mut failures: Vec<SendFailure> = Vec::new();
    proof {
        assert(failures@ + failures_of(rest@) =~= failures_of(orig));
    }
    while rest.len() > 0
        invariant
            failures@ + failures_of(rest@) == failures_of(orig),
        decreases rest.len(),
    {
        let ghost before = rest@;
        let a = rest.remove(0);
        proof {
            assert(rest@ =~= before.skip(1));
        }
        match a.error {
            Some(e) => {
                failures.push(SendFailure { addr: a.addr, reason: e });
                proof {
                    assert(failures@ + failures_of(rest@) =~= failures_of(orig));
                }
            },
            None => {},
        }
    }
    proof {
        assert(failures_of(rest@) =~= Seq::<SendFailure>::empty());
        assert(failures@ + failures_of(rest@) =~= failures@);
    }
    if failures.len() == 0 {
        Ok(())
    } else {
        Err(TransferError::Failed(failures))
    }
}

} // verus!
