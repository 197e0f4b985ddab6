//! The wire packet: header lines, a section separator, then the raw payload.
//!
//! A packet is serialized as one line `name=value` followed by `\n` for each
//! header, the two-byte section separator `::`, and the payload bytes
//! unchanged. Decoding scans for the first occurrence of the separator,
//! requires the bytes before it to be UTF-8, splits them into lines, keeps
//! the lines holding `=`, and treats everything after the separator as the
//! payload.

use vstd::prelude::*;

use crate::text::{bytes_eq, check_utf8, find_byte, find_byte_from, is_utf8, no_byte};

verus! {

/// Separates a header's name from its value inside one line.
pub const HEADER_SEPARATOR: u8 = 61;

/// Ends a header line.
pub const LINE_SEPARATOR: u8 = 10;

/// Doubled, separates the header section from the payload.
pub const SECTION_SEPARATOR_BYTE: u8 = 58;

/// Why bytes failed to decode as a packet.
#[derive(Clone, Copy, Debug, PartialEq, Eq, Structural)]
pub enum PacketParseError {
    /// The bytes hold no section separator.
    MissingSectionsSeparator,
    /// The bytes before the section separator are not UTF-8.
    InvalidUtf8,
}

/// The byte strings of a sequence of header pairs.
pub open spec fn pairs_view(pairs: Seq<(Vec<u8>, Vec<u8>)>) -> Seq<(Seq<u8>, Seq<u8>)> {
    pairs.map(|i: int, p: (Vec<u8>, Vec<u8>)| (p.0@, p.1@))
}

/// Whether no two headers share a name.
pub open spec fn unique_header_names(hs: Seq<(Seq<u8>, Seq<u8>)>) -> bool {
    forall|i: int, j: int| 0 <= i < j < hs.len() ==> hs[i].0 != hs[j].0
}

/// One serialized header line: `name=value\n`.
pub open spec fn header_line_bytes(name: Seq<u8>, value: Seq<u8>) -> Seq<u8> {
    name + seq![HEADER_SEPARATOR] + value + seq![LINE_SEPARATOR]
}

/// The serialized header section: every header's line, in order.
pub open spec fn header_section_bytes(hs: Seq<(Seq<u8>, Seq<u8>)>) -> Seq<u8>
    decreases hs.len(),
{
    if hs.len() == 0 {
        Seq::empty()
    } else {
        header_line_bytes(hs[0].0, hs[0].1) + header_section_bytes(hs.skip(1))
    }
}

/// The full serialized packet: header section, `::`, payload.
pub open spec fn packet_bytes(hs: Seq<(Seq<u8>, Seq<u8>)>, payload: Seq<u8>) -> Seq<u8> {
    header_section_bytes(hs) + seq![SECTION_SEPARATOR_BYTE, SECTION_SEPARATOR_BYTE] + payload
}

/// Serializing headers one at a time appends one line at a time.
pub proof fn lemma_header_section_snoc(hs: Seq<(Seq<u8>, Seq<u8>)>)
    requires
        hs.len() > 0,
    ensures
        header_section_bytes(hs) == header_section_bytes(hs.drop_last()) + header_line_bytes(
            hs.last().0,
            hs.last().1,
        ),
    decreases hs.len(),
{
    if hs.len() == 1 {
        assert(hs.drop_last() =~= Seq::<(Seq<u8>, Seq<u8>)>::empty());
        assert(hs.skip(1) =~= Seq::<(Seq<u8>, Seq<u8>)>::empty());
        assert(header_section_bytes(hs.drop_last()) + header_line_bytes(hs.last().0, hs.last().1)
            =~= header_line_bytes(hs[0].0, hs[0].1) + header_section_bytes(hs.skip(1)));
    } else {
        let tail = hs.skip(1);
        lemma_header_section_snoc(tail);
        assert(tail.drop_last() =~= hs.drop_last().skip(1));
        assert(tail.last() == hs.last());
        assert(header_line_bytes(hs[0].0, hs[0].1) + (header_section_bytes(tail.drop_last())
            + header_line_bytes(tail.last().0, tail.last().1)) =~= (header_line_bytes(
            hs[0].0,
            hs[0].1,
        ) + header_section_bytes(hs.drop_last().skip(1))) + header_line_bytes(
            hs.last().0,
            hs.last().1,
        ));
        assert(hs.drop_last()[0] == hs[0]);
    }
}

/// Index of the first header named `name`, searching from `from`.
pub open spec fn header_index_from(hs: Seq<(Seq<u8>, Seq<u8>)>, name: Seq<u8>, from: int) -> Option<
    int,
>
    decreases hs.len() - from,
    when 0 <= from <= hs.len()
{
    if from >= hs.len() {
        None
    } else if hs[from].0 == name {
        Some(from)
    } else {
        header_index_from(hs, name, from + 1)
    }
}

/// What `header_index_from` returns: the first header so named, or none.
pub proof fn lemma_header_index_from(hs: Seq<(Seq<u8>, Seq<u8>)>, name: Seq<u8>, from: int)
    requires
        0 <= from <= hs.len(),
    ensures
        match header_index_from(hs, name, from) {
            Some(i) => from <= i < hs.len() && hs[i].0 == name && forall|j: int|
                from <= j < i ==> hs[j].0 != name,
            None => forall|j: int| from <= j < hs.len() ==> hs[j].0 != name,
        },
    decreases hs.len() - from,
{
    if from < hs.len() && hs[from].0 != name {
        lemma_header_index_from(hs, name, from + 1);
    }
}

/// The value of the header named `name`, if one exists.
pub open spec fn lookup_header(hs: Seq<(Seq<u8>, Seq<u8>)>, name: Seq<u8>) -> Option<Seq<u8>> {
    match header_index_from(hs, name, 0) {
        Some(i) => Some(hs[i].1),
        None => None,
    }
}

/// `hs` with the header `name` set to `value`: replaced in place when
/// present, appended when absent.
pub open spec fn upsert_header(
    hs: Seq<(Seq<u8>, Seq<u8>)>,
    name: Seq<u8>,
    value: Seq<u8>,
) -> Seq<(Seq<u8>, Seq<u8>)> {
    match header_index_from(hs, name, 0) {
        Some(i) => hs.update(i, (name, value)),
        None => hs.push((name, value)),
    }
}

/// Setting a header keeps header names unique.
pub proof fn lemma_upsert_header_unique(hs: Seq<(Seq<u8>, Seq<u8>)>, name: Seq<u8>, value: Seq<u8>)
    requires
        unique_header_names(hs),
    ensures
        unique_header_names(upsert_header(hs, name, value)),
        lookup_header(upsert_header(hs, name, value), name) == Some(value),
{
    lemma_header_index_from(hs, name, 0);
    let hs2 = upsert_header(hs, name, value);
    match header_index_from(hs, name, 0) {
        Some(i) => {
            assert(hs2 == hs.update(i, (name, value)));
            assert(hs2.len() == hs.len());
            assert forall|k: int| 0 <= k < hs2.len() && k != i implies hs2[k] == hs[k] by {}
            assert(hs[i].0 == name);
            assert(unique_header_names(hs2));
            lemma_header_index_from(hs2, name, 0);
            match header_index_from(hs2, name, 0) {
                Some(i2) => {
                    assert(hs2[i].0 == name);
                    if i2 < i {
                        assert(hs2[i2].0 == hs[i2].0);
                    }
                    assert(i2 == i);
                },
                None => {
                    assert(hs2[i].0 == name);
                },
            }
        },
        None => {
            lemma_header_index_from(hs2, name, 0);
            match header_index_from(hs2, name, 0) {
                Some(i2) => {
                    if i2 < hs.len() {
                        assert(hs2[i2].0 == hs[i2].0);
                    }
                    assert(i2 == hs.len());
                },
                None => {
                    assert(hs2[hs.len() as int].0 == name);
                },
            }
        },
    }
}

/// Whether a section separator (two adjacent separator bytes) stands at
/// position `i` of `s`.
pub open spec fn sep_at(s: Seq<u8>, i: int) -> bool {
    0 <= i && i + 2 <= s.len() && s[i] == SECTION_SEPARATOR_BYTE && s[i + 1]
        == SECTION_SEPARATOR_BYTE
}

/// Position of the first section separator in `s` at or after `from`.
pub open spec fn find_sep_from(s: Seq<u8>, from: int) -> Option<int>
    decreases s.len() - from,
    when 0 <= from
{
    if from + 2 > s.len() {
        None
    } else if sep_at(s, from) {
        Some(from)
    } else {
        find_sep_from(s, from + 1)
    }
}

/// Finds the first section separator in `s`.
pub fn find_section_separator(s: &[u8]) -> (r: Option<usize>)
    ensures
        match r {
            Some(i) => find_sep_from(s@, 0) == Some(i as int) && i + 2 <= s@.len(),
            None => find_sep_from(s@, 0) is None,
        },
{
    let n = s.len();
    if n < 2 {
        return None;
    }
    let mut i: usize = 0;
    while i <= n - 2
        invariant
            2 <= n,
            n == s@.len(),
            i <= n - 1,
            find_sep_from(s@, 0) == find_sep_from(s@, i as int),
        decreases n - i,
    {
        if s[i] == SECTION_SEPARATOR_BYTE && s[i + 1] == SECTION_SEPARATOR_BYTE {
            assert(sep_at(s@, i as int));
            return Some(i);
        }
        i = i + 1;
    }
    None
}

/// The decoded headers of one line folded into `hs`: a line with a header
/// separator sets the header it names, any other line is dropped.
pub open spec fn apply_header_line(hs: Seq<(Seq<u8>, Seq<u8>)>, line: Seq<u8>) -> Seq<
    (Seq<u8>, Seq<u8>),
> {
    match find_byte_from(line, HEADER_SEPARATOR, 0) {
        Some(e) => upsert_header(hs, line.take(e), line.skip(e + 1)),
        None => hs,
    }
}

/// The headers decoded from section bytes `s`, byte by byte: `cur` is the
/// line read so far and `hs` the headers already decoded.
pub open spec fn decode_header_section(s: Seq<u8>, cur: Seq<u8>, hs: Seq<(Seq<u8>, Seq<u8>)>) -> Seq<
    (Seq<u8>, Seq<u8>),
>
    decreases s.len(),
{
    if s.len() == 0 {
        apply_header_line(hs, cur)
    } else if s[0] == LINE_SEPARATOR {
        decode_header_section(s.skip(1), Seq::empty(), apply_header_line(hs, cur))
    } else {
        decode_header_section(s.skip(1), cur.push(s[0]), hs)
    }
}

/// The headers decoded from a whole header section.
pub open spec fn decoded_headers(section: Seq<u8>) -> Seq<(Seq<u8>, Seq<u8>)> {
    decode_header_section(section, Seq::empty(), Seq::empty())
}

/// Whether bytes decode as a packet: they hold a section separator, and the
/// bytes before the first one are UTF-8.
pub open spec fn decode_ok(b: Seq<u8>) -> bool {
    match find_sep_from(b, 0) {
        Some(i) => is_utf8(b.take(i)),
        None => false,
    }
}

/// The error that decoding the bytes of no packet reports.
pub open spec fn decode_err(b: Seq<u8>) -> PacketParseError {
    if find_sep_from(b, 0) is None {
        PacketParseError::MissingSectionsSeparator
    } else {
        PacketParseError::InvalidUtf8
    }
}

/// The headers decoded from serialized bytes.
pub open spec fn decoded_headers_of(b: Seq<u8>) -> Seq<(Seq<u8>, Seq<u8>)> {
    match find_sep_from(b, 0) {
        Some(i) => decoded_headers(b.take(i)),
        None => Seq::empty(),
    }
}

/// The payload decoded from serialized bytes: everything after the first
/// section separator.
pub open spec fn decoded_payload_of(b: Seq<u8>) -> Seq<u8> {
    match find_sep_from(b, 0) {
        Some(i) => b.skip(i + 2),
        None => Seq::empty(),
    }
}

/// Copies a byte slice into a fresh vector.
pub fn copy_bytes(s: &[u8]) -> (r: Vec<u8>)
    ensures
        r@ == s@,
{
    let mut out: Vec<u8> = Vec::new();
    let mut i: usize = 0;
    while i < s.len()
        invariant
            i <= s@.len(),
            out@ == s@.take(i as int),
        decreases s@.len() - i,
    {
        out.push(s[i]);
        proof {
            assert(s@.take(i + 1) =~= s@.take(i as int).push(s@[i as int]));
        }
        i = i + 1;
    }
    proof {
        assert(s@.take(s@.len() as int) =~= s@);
    }
    out
}

/// Sets the header `name` to `value` among `headers`: replaces the value in
/// place when the name is present, appends the pair when it is not.
fn upsert_pairs(headers: &mut Vec<(Vec<u8>, Vec<u8>)>, name: Vec<u8>, value: Vec<u8>)
    requires
        unique_header_names(pairs_view(old(headers)@)),
    ensures
        pairs_view(final(headers)@) == upsert_header(pairs_view(old(headers)@), name@, value@),
        unique_header_names(pairs_view(final(headers)@)),
{
    let ghost hs = pairs_view(headers@);
    proof {
        lemma_header_index_from(hs, name@, 0);
        lemma_upsert_header_unique(hs, name@, value@);
    }
    let n = headers.len();
    let mut i: usize = 0;
    while i < n
        invariant
            i <= n,
            n == headers@.len(),
            hs == pairs_view(headers@),
            hs == pairs_view(old(headers)@),
            unique_header_names(hs),
            header_index_from(hs, name@, 0) == header_index_from(hs, name@, i as int),
            forall|j: int| 0 <= j < i ==> hs[j].0 != name@,
        decreases n - i,
    {
        if bytes_eq(headers[i].0.as_slice(), name.as_slice()) {
            headers[i] = (name, value);
            proof {
                assert(header_index_from(hs, name@, i as int) == Some(i as int));
                assert(pairs_view(headers@) =~= hs.update(i as int, (name@, value@)));
                lemma_upsert_header_unique(hs, name@, value@);
            }
            return ;
        }
        i = i + 1;
    }
    headers.push((name, value));
    proof {
        assert(header_index_from(hs, name@, n as int) is None);
        assert(pairs_view(headers@) =~= hs.push((name@, value@)));
    }
}

/// Folds one finished header line into `headers`, as `apply_header_line`
/// says: a line with a header separator sets the header, others are dropped.
fn apply_line(headers: &mut Vec<(Vec<u8>, Vec<u8>)>, line: &[u8])
    requires
        unique_header_names(pairs_view(old(headers)@)),
    ensures
        pairs_view(final(headers)@) == apply_header_line(pairs_view(old(headers)@), line@),
        unique_header_names(pairs_view(final(headers)@)),
{
    let llen = line.len();
    match find_byte(line, HEADER_SEPARATOR, 0) {
        Some(e) => {
            let name = copy_bytes(&line[0..e]);
            let value = copy_bytes(&line[(e + 1)..llen]);
            proof {
                assert(name@ =~= line@.take(e as int));
                assert(value@ =~= line@.skip(e + 1));
            }
            upsert_pairs(headers, name, value);
        },
        None => {},
    }
}

/// A packet carrying named text headers and an optional raw payload.
///
/// Headers keep their insertion order and their names stay unique; the
/// payload is any byte string.
pub struct Packet {
    headers: Vec<(Vec<u8>, Vec<u8>)>,
    payload: Option<Vec<u8>>,
}

impl Packet {
    /// The packet's headers as byte strings, in insertion order.
    pub closed spec fn headers_view(&self) -> Seq<(Seq<u8>, Seq<u8>)> {
        pairs_view(self.headers@)
    }

    /// The packet's payload as a byte string, if one was set.
    pub closed spec fn payload_view(&self) -> Option<Seq<u8>> {
        match self.payload {
            Some(p) => Some(p@),
            None => None,
        }
    }

    /// The bytes that `as_bytes` appends after the section separator.
    pub open spec fn payload_bytes(&self) -> Seq<u8> {
        match self.payload_view() {
            Some(p) => p,
            None => Seq::empty(),
        }
    }

    /// No two headers share a name.
    pub open spec fn wf(&self) -> bool {
        unique_header_names(self.headers_view())
    }

    /// Creates a packet with no headers and no payload.
    pub fn new() -> (r: Packet)
        ensures
            r.headers_view() == Seq::<(Seq<u8>, Seq<u8>)>::empty(),
            r.payload_view() is None,
            r.wf(),
    {
        let r = Packet { headers: Vec::new(), payload: None };
        proof {
            assert(r.headers_view() =~= Seq::<(Seq<u8>, Seq<u8>)>::empty());
        }
        r
    }

    /// Inserts a header or updates its value if the name is already present.
    pub fn set_header(&mut self, name: &[u8], value: &[u8])
        requires
            old(self).wf(),
        ensures
            final(self).wf(),
            final(self).headers_view() == upsert_header(old(self).headers_view(), name@, value@),
            final(self).payload_view() == old(self).payload_view(),
    {
        upsert_pairs(&mut self.headers, copy_bytes(name), copy_bytes(value));
    }

    /// The value of the header so named, if the packet carries it.
    pub fn get_header(&self, name: &[u8]) -> (r: Option<&Vec<u8>>)
        ensures
            match r {
                Some(v) => lookup_header(self.headers_view(), name@) == Some(v@),
                None => lookup_header(self.headers_view(), name@) is None,
            },
    {
        let ghost hs = self.headers_view();
        let n = self.headers.len();
        let mut i: usize = 0;
        while i < n
            invariant
                i <= n,
                n == self.headers@.len(),
                hs == pairs_view(self.headers@),
                header_index_from(hs, name@, 0) == header_index_from(hs, name@, i as int),
            decreases n - i,
        {
            if bytes_eq(self.headers[i].0.as_slice(), name) {
                return Some(&self.headers[i].1);
            }
            i = i + 1;
        }
        None
    }

    /// Sets the payload to be carried after the headers.
    pub fn set_payload(&mut self, payload: Vec<u8>)
        ensures
            final(self).payload_view() == Some(payload@),
            final(self).headers_view() == old(self).headers_view(),
            final(self).wf() == old(self).wf(),
    {
        self.payload = Some(payload);
    }

    /// The payload, if one was set.
    pub fn get_payload(&self) -> (r: Option<&Vec<u8>>)
        ensures
            match r {
                Some(p) => self.payload_view() == Some(p@),
                None => self.payload_view() is None,
            },
    {
        match &self.payload {
            Some(p) => Some(p),
            None => None,
        }
    }

    /// Serializes the packet: header lines, the section separator, then the
    /// payload bytes unchanged.
    pub fn as_bytes(&self) -> (r: Vec<u8>)
        ensures
            r@ == packet_bytes(self.headers_view(), self.payload_bytes()),
    {
        let ghost hs = self.headers_view();
        let mut out: Vec<u8> = Vec::new();
        let n = self.headers.len();
        let mut i: usize = 0;
        proof {
            assert(hs.take(0) =~= Seq::<(Seq<u8>, Seq<u8>)>::empty());
            assert(out@ =~= header_section_bytes(hs.take(0)));
        }
        while i < n
            invariant
                i <= n,
                n == self.headers@.len(),
                hs == pairs_view(self.headers@),
                out@ == header_section_bytes(hs.take(i as int)),
            decreases n - i,
        {
            out.extend_from_slice(self.headers[i].0.as_slice());
            out.push(HEADER_SEPARATOR);
            out.extend_from_slice(self.headers[i].1.as_slice());
            out.push(LINE_SEPARATOR);
            proof {
                let taken = hs.take(i + 1);
                lemma_header_section_snoc(taken);
                assert(taken.drop_last() =~= hs.take(i as int));
                assert(taken.last() == hs[i as int]);
                assert(out@ =~= header_section_bytes(hs.take(i as int)) + header_line_bytes(
                    hs[i as int].0,
                    hs[i as int].1,
                ));
            }
            i = i + 1;
        }
        proof {
            assert(hs.take(n as int) =~= hs);
        }
        out.push(SECTION_SEPARATOR_BYTE);
        out.push(SECTION_SEPARATOR_BYTE);
        match &self.payload {
            Some(p) => {
                out.extend_from_slice(p.as_slice());
            },
            None => {},
        }
        proof {
            assert(out@ =~= packet_bytes(hs, self.payload_bytes()));
        }
        out
    }

    /// Reconstructs a packet from serialized bytes.
    ///
    /// Fails when the bytes hold no section separator, or when the bytes
    /// before the first separator are not UTF-8. Header lines without a
    /// header separator are dropped; everything after the section separator,
    /// possibly nothing, becomes the payload.
    pub fn from_bytes(bytes: &[u8]) -> (r: Result<Packet, PacketParseError>)
        ensures
            match r {
                Ok(p) => decode_ok(bytes@) && p.wf() && p.headers_view() == decoded_headers_of(
                    bytes@,
                ) && p.payload_view() == Some(decoded_payload_of(bytes@)),
                Err(e) => !decode_ok(bytes@) && e == decode_err(bytes@),
            },
    {
        let si = match find_section_separator(bytes) {
            Some(i) => i,
            None => {
                return Err(PacketParseError::MissingSectionsSeparator);
            },
        };
        let ghost sec = bytes@.take(si as int);
        let section = &bytes[0..si];
        proof {
            assert(section@ =~= sec);
        }
        if !check_utf8(section) {
            return Err(PacketParseError::InvalidUtf8);
        }
        let mut headers: Vec<(Vec<u8>, Vec<u8>)> = Vec::new();
        let mut cur: Vec<u8> = Vec::new();
        let mut i: usize = 0;
        proof {
            assert(pairs_view(headers@) =~= Seq::<(Seq<u8>, Seq<u8>)>::empty());
            assert(sec.skip(0) =~= sec);
        }
        while i < si
            invariant
                i <= si,
                si + 2 <= bytes@.len(),
                sec == bytes@.take(si as int),
                unique_header_names(pairs_view(headers@)),
                decode_header_section(sec.skip(i as int), cur@, pairs_view(headers@))
                    == decoded_headers(sec),
            decreases si - i,
        {
            let ghost rest = sec.skip(i as int);
            let b = bytes[i];
            proof {
                assert(rest[0] == b);
                assert(sec.skip(i + 1) =~= rest.skip(1));
            }
            if b == LINE_SEPARATOR {
                apply_line(&mut headers, cur.as_slice());
                cur = Vec::new();
                proof {
                    assert(cur@ =~= Seq::<u8>::empty());
                }
            } else {
                cur.push(b);
            }
            i = i + 1;
        }
        proof {
            assert(sec.skip(si as int) =~= Seq::<u8>::empty());
        }
        apply_line(&mut headers, cur.as_slice());
        let blen = bytes.len();
        let payload = copy_bytes(&bytes[(si + 2)..blen]);
        proof {
            assert(payload@ =~= bytes@.skip(si + 2));
        }
        Ok(Packet { headers, payload: Some(payload) })
    }
}

/// Whether a header survives serialization intact: its name holds no header
/// separator, neither name nor value holds a line break or an embedded
/// section separator, and both are UTF-8.
pub open spec fn encodable_header(name: Seq<u8>, value: Seq<u8>) -> bool {
    &&& no_byte(name, HEADER_SEPARATOR)
    &&& no_byte(name, LINE_SEPARATOR)
    &&& no_byte(value, LINE_SEPARATOR)
    &&& (forall|i: int| !sep_at(name, i))
    &&& (forall|i: int| !sep_at(value, i))
    &&& is_utf8(name)
    &&& is_utf8(value)
}

/// Whether a header map survives serialization intact: names unique, every
/// pair encodable.
pub open spec fn encodable_headers(hs: Seq<(Seq<u8>, Seq<u8>)>) -> bool {
    &&& unique_header_names(hs)
    &&& forall|k: int| 0 <= k < hs.len() ==> encodable_header(#[trigger] hs[k].0, hs[k].1)
}

/// The serialized header section of encodable headers is UTF-8.
proof fn lemma_header_section_utf8(hs: Seq<(Seq<u8>, Seq<u8>)>)
    requires
        forall|k: int| 0 <= k < hs.len() ==> encodable_header(#[trigger] hs[k].0, hs[k].1),
    ensures
        is_utf8(header_section_bytes(hs)),
    decreases hs.len(),
{
    if hs.len() > 0 {
        let name = hs[0].0;
        let value = hs[0].1;
        crate::text::lemma_ascii_is_utf8(seq![HEADER_SEPARATOR]);
        crate::text::lemma_ascii_is_utf8(seq![LINE_SEPARATOR]);
        crate::text::lemma_utf8_concat(name, seq![HEADER_SEPARATOR]);
        crate::text::lemma_utf8_concat(name + seq![HEADER_SEPARATOR], value);
        crate::text::lemma_utf8_concat(name + seq![HEADER_SEPARATOR] + value, seq![LINE_SEPARATOR]);
        lemma_header_section_utf8(hs.skip(1));
        crate::text::lemma_utf8_concat(
            header_line_bytes(name, value),
            header_section_bytes(hs.skip(1)),
        );
    }
}

/// No section separator occurs in the serialized section of encodable
/// headers, and the section never ends with a separator byte.
proof fn lemma_header_section_no_sep(hs: Seq<(Seq<u8>, Seq<u8>)>)
    requires
        forall|k: int| 0 <= k < hs.len() ==> encodable_header(#[trigger] hs[k].0, hs[k].1),
    ensures
        forall|i: int| !sep_at(#[trigger] header_section_bytes(hs), i),
        header_section_bytes(hs).len() == 0 || header_section_bytes(hs).last()
            != SECTION_SEPARATOR_BYTE,
    decreases hs.len(),
{
    if hs.len() > 0 {
        let name = hs[0].0;
        let value = hs[0].1;
        let line = header_line_bytes(name, value);
        let rest = header_section_bytes(hs.skip(1));
        lemma_header_section_no_sep(hs.skip(1));
        assert forall|i: int| !sep_at(line, i) by {
            if 0 <= i && i + 2 <= line.len() {
                if i + 1 < name.len() {
                    assert(!sep_at(name, i));
                    assert(line[i] == name[i] && line[i + 1] == name[i + 1]);
                } else if i + 1 == name.len() {
                    assert(line[i + 1] == HEADER_SEPARATOR);
                } else if i == name.len() {
                    assert(line[i] == HEADER_SEPARATOR);
                } else if i + 1 < name.len() + 1 + value.len() {
                    let j = i - name.len() - 1;
                    assert(!sep_at(value, j));
                    assert(line[i] == value[j] && line[i + 1] == value[j + 1]);
                } else {
                    assert(line[i + 1] == LINE_SEPARATOR);
                }
            }
        }
        assert(line.last() == LINE_SEPARATOR);
        assert forall|i: int| !sep_at(#[trigger] header_section_bytes(hs), i) by {
            let sec = header_section_bytes(hs);
            if 0 <= i && i + 2 <= sec.len() {
                if i + 1 < line.len() {
                    assert(sec[i] == line[i] && sec[i + 1] == line[i + 1]);
                    assert(!sep_at(line, i));
                } else if i + 1 == line.len() {
                    assert(sec[i] == line.last());
                } else {
                    let j = i - line.len();
                    assert(sec[i] == rest[j] && sec[i + 1] == rest[j + 1]);
                    assert(!sep_at(rest, j));
                }
            }
        }
        if rest.len() == 0 {
            assert(header_section_bytes(hs).last() == LINE_SEPARATOR);
        } else {
            assert(header_section_bytes(hs).last() == rest.last());
        }
    }
}

/// A position holding a separator, with none before it, is what
/// `find_sep_from` finds.
proof fn lemma_find_sep_from_exact(s: Seq<u8>, from: int, pos: int)
    requires
        0 <= from <= pos,
        sep_at(s, pos),
        forall|j: int| from <= j < pos ==> !sep_at(s, j),
    ensures
        find_sep_from(s, from) == Some(pos),
    decreases pos - from,
{
    if from < pos {
        lemma_find_sep_from_exact(s, from + 1, pos);
    }
}

/// Decoding one serialized line folds it into the headers and goes on with
/// the rest of the section.
proof fn lemma_decode_line_step(
    line: Seq<u8>,
    rest: Seq<u8>,
    cur: Seq<u8>,
    acc: Seq<(Seq<u8>, Seq<u8>)>,
)
    requires
        no_byte(line, LINE_SEPARATOR),
    ensures
        decode_header_section(line + seq![LINE_SEPARATOR] + rest, cur, acc)
            == decode_header_section(rest, Seq::empty(), apply_header_line(acc, cur + line)),
    decreases line.len(),
{
    let s = line + seq![LINE_SEPARATOR] + rest;
    if line.len() == 0 {
        assert(s[0] == LINE_SEPARATOR);
        assert(s.skip(1) =~= rest);
        assert(cur + line =~= cur);
    } else {
        assert(s[0] == line[0]);
        assert(s[0] != LINE_SEPARATOR);
        assert(s.skip(1) =~= line.skip(1) + seq![LINE_SEPARATOR] + rest);
        lemma_decode_line_step(line.skip(1), rest, cur.push(line[0]), acc);
        assert(cur.push(line[0]) + line.skip(1) =~= cur + line);
    }
}

/// Parsing a serialized header line recovers the name and the value.
proof fn lemma_parse_header_line(name: Seq<u8>, value: Seq<u8>)
    requires
        no_byte(name, HEADER_SEPARATOR),
    ensures
        ({
            let line = name + seq![HEADER_SEPARATOR] + value;
            find_byte_from(line, HEADER_SEPARATOR, 0) == Some(name.len() as int) && line.take(
                name.len() as int,
            ) == name && line.skip(name.len() as int + 1) == value
        }),
{
    let line = name + seq![HEADER_SEPARATOR] + value;
    assert(line[name.len() as int] == HEADER_SEPARATOR);
    assert forall|j: int| 0 <= j < name.len() implies line[j] != HEADER_SEPARATOR by {
        assert(line[j] == name[j]);
    }
    crate::text::lemma_find_byte_from_exact(line, HEADER_SEPARATOR, 0, name.len() as int);
    assert(line.take(name.len() as int) =~= name);
    assert(line.skip(name.len() as int + 1) =~= value);
}

/// Decoding the serialized section of encodable headers, none of which is
/// already among `acc`, appends exactly those headers to `acc`.
proof fn lemma_decode_section(hs: Seq<(Seq<u8>, Seq<u8>)>, acc: Seq<(Seq<u8>, Seq<u8>)>)
    requires
        encodable_headers(hs),
        forall|k: int, m: int| 0 <= k < hs.len() && 0 <= m < acc.len() ==> acc[m].0 != hs[k].0,
    ensures
        decode_header_section(header_section_bytes(hs), Seq::empty(), acc) == acc + hs,
    decreases hs.len(),
{
    if hs.len() == 0 {
        crate::text::lemma_find_byte_from_none(Seq::empty(), HEADER_SEPARATOR, 0);
        assert(decode_header_section(header_section_bytes(hs), Seq::empty(), acc) == acc);
        assert(acc + hs =~= acc);
    } else {
        let name = hs[0].0;
        let value = hs[0].1;
        let body = name + seq![HEADER_SEPARATOR] + value;
        let rest = header_section_bytes(hs.skip(1));
        assert(encodable_header(name, value));
        assert(header_section_bytes(hs) =~= body + seq![LINE_SEPARATOR] + rest);
        assert forall|j: int| 0 <= j < body.len() implies body[j] != LINE_SEPARATOR by {
            if j < name.len() {
                assert(body[j] == name[j]);
            } else if j == name.len() {
                assert(body[j] == HEADER_SEPARATOR);
            } else {
                assert(body[j] == value[j - name.len() - 1]);
            }
        }
        lemma_decode_line_step(body, rest, Seq::empty(), acc);
        assert(Seq::<u8>::empty() + body =~= body);
        lemma_parse_header_line(name, value);
        lemma_header_index_from(acc, name, 0);
        assert(header_index_from(acc, name, 0) is None);
        assert(apply_header_line(acc, body) == acc.push((name, value)));
        let acc2 = acc.push((name, value));
        assert forall|k: int, m: int|
            0 <= k < hs.skip(1).len() && 0 <= m < acc2.len() implies acc2[m].0 != hs.skip(
            1,
        )[k].0 by {
            assert(hs.skip(1)[k] == hs[k + 1]);
            if m < acc.len() {
                assert(acc2[m] == acc[m]);
            } else {
                assert(acc2[m].0 == name);
            }
        }
        lemma_decode_section(hs.skip(1), acc2);
        assert(acc2 + hs.skip(1) =~= acc + hs);
    }
}

/// The round trip of the codec: any encodable header map and any payload
/// serialize to bytes that decode back to the same headers and payload.
pub proof fn lemma_packet_round_trip(hs: Seq<(Seq<u8>, Seq<u8>)>, payload: Seq<u8>)
    requires
        encodable_headers(hs),
    ensures
        ({
            let b = packet_bytes(hs, payload);
            let sec = header_section_bytes(hs);
            &&& find_sep_from(b, 0) == Some(sec.len() as int)
            &&& b.take(sec.len() as int) == sec
            &&& is_utf8(sec)
            &&& decoded_headers(sec) == hs
            &&& b.skip(sec.len() as int + 2) == payload
            &&& decode_ok(b)
            &&& decoded_headers_of(b) == hs
            &&& decoded_payload_of(b) == payload
        }),
{
    let b = packet_bytes(hs, payload);
    let sec = header_section_bytes(hs);
    lemma_header_section_utf8(hs);
    lemma_header_section_no_sep(hs);
    assert(b.take(sec.len() as int) =~= sec);
    assert(b.skip(sec.len() as int + 2) =~= payload);
    assert(sep_at(b, sec.len() as int));
    assert forall|j: int| 0 <= j < sec.len() implies !sep_at(b, j) by {
        if j + 2 <= sec.len() {
            assert(b[j] == sec[j] && b[j + 1] == sec[j + 1]);
            assert(!sep_at(sec, j));
        } else {
            assert(j + 1 == sec.len());
            assert(b[j] == sec.last());
            assert(sec.last() != SECTION_SEPARATOR_BYTE);
        }
    }
    lemma_find_sep_from_exact(b, 0, sec.len() as int);
    lemma_decode_section(hs, Seq::empty());
    assert(Seq::<(Seq<u8>, Seq<u8>)>::empty() + hs =~= hs);
}

} // verus!
