//! Long packet headers: the parts common to all versions (the two connection
//! identifiers) and the parts specific to each packet type.
use vstd::prelude::*;
use crate::cid::{bytes_of, ConnectionId, MAX_CID_SIZE};
use crate::codec::{put_bytes, vb};
use crate::varint::{get_varint, parse_varint, put_varint, VARINT_MAX};

verus! {

/// Version Negotiation: the versions the server supports.
#[derive(Debug)]
pub struct VersionNegotiation {
    pub versions: Vec<u32>,
}

/// Retry: the token, then a 16-byte integrity tag.
#[derive(Debug)]
pub struct Retry {
    pub token: Vec<u8>,
    pub integrity: Vec<u8>,
}

/// Initial: a token and the length of the rest of the packet.
#[derive(Debug)]
pub struct Initial {
    pub token: Vec<u8>,
    pub length: u64,
}

/// 0-RTT: the length of the rest of the packet.
#[derive(Debug, Clone, Copy, PartialEq, Eq, Structural)]
pub struct ZeroRtt {
    pub length: u64,
}

/// Handshake: the length of the rest of the packet.
#[derive(Debug, Clone, Copy, PartialEq, Eq, Structural)]
pub struct Handshake {
    pub length: u64,
}

/// A long header: destination and source identifiers and the type-specific part.
#[derive(Debug)]
pub struct LongHeader<T> {
    pub dcid: ConnectionId,
    pub scid: ConnectionId,
    pub specific: T,
}

/// The identifiers of a long header, waiting for its type-specific part.
#[derive(Debug)]
pub struct LongHeaderBuilder {
    pub dcid: ConnectionId,
    pub scid: ConnectionId,
}

/// Why a header cannot be read.
#[derive(Debug, Clone, Copy, PartialEq, Eq, Structural)]
pub enum HeaderError {
    /// More bytes are needed.
    Incomplete,
}

impl Retry {
    /// A Retry from its token and its 16-byte integrity tag.
    pub fn from_slice(token: &[u8], integrity: &[u8]) -> (r: Retry)
        requires
            integrity@.len() == 16,
        ensures
            r.token@ == token@,
            r.integrity@ == integrity@,
    {
        Retry { token: bytes_of(token), integrity: bytes_of(integrity) }
    }
}

impl LongHeaderBuilder {
    pub fn with_cid(dcid: ConnectionId, scid: ConnectionId) -> (r: Self)
        ensures
            r.dcid@ == dcid@,
            r.scid@ == scid@,
    {
        LongHeaderBuilder { dcid, scid }
    }

    /// The header with this type-specific part.
    pub fn wrap<T>(self, specific: T) -> (r: LongHeader<T>)
        ensures
            r.dcid@ == self.dcid@,
            r.scid@ == self.scid@,
            r.specific == specific,
    {
        LongHeader { dcid: self.dcid, scid: self.scid, specific }
    }
}

/// The value of four bytes, most significant first.
pub open spec fn be_u32_of(b: Seq<u8>) -> u32 {
    ((b[0] as int) * 16777216 + (b[1] as int) * 65536 + (b[2] as int) * 256 + b[3] as int) as u32
}

/// Reads the versions of a Version Negotiation packet: four bytes each, to the end of
/// the input; Incomplete when a version is cut short.
pub fn be_version_negotiation(input: &[u8]) -> (r: Result<(usize, VersionNegotiation), HeaderError>)
    ensures
        input@.len() % 4 != 0 ==> r is Err,
        input@.len() % 4 == 0 ==> (r matches Ok((n, vn)) && n == input@.len() && vn.versions@.len() == input@.len() / 4
            && forall|i: int| 0 <= i < vn.versions@.len() ==> #[trigger] vn.versions@[i] == be_u32_of(input@.subrange(4 * i, 4 * i + 4))),
{
    if input.len() % 4 != 0 {
        return Err(HeaderError::Incomplete);
    }
    let mut versions: Vec<u32> = Vec::new();
    let mut i: usize = 0;
    while i < input.len()
        invariant
            input@.len() % 4 == 0,
            i % 4 == 0,
            i <= input@.len(),
            versions@.len() == i / 4,
            forall|j: int| 0 <= j < versions@.len() ==> #[trigger] versions@[j] == be_u32_of(input@.subrange(4 * j, 4 * j + 4)),
        decreases input@.len() - i,
    {
        let v = (input[i] as u32) * 16777216 + (input[i + 1] as u32) * 65536 + (input[i + 2] as u32) * 256 + input[i + 3] as u32;
        assert(v == be_u32_of(input@.subrange(i as int, i + 4)));
        versions.push(v);
        i = i + 4;
    }
    Ok((input.len(), VersionNegotiation { versions }))
}

/// Reads an Initial header's specific part: the token length, the token and the
/// length of the rest; Incomplete when the input ends first.
pub fn be_initial(input: &[u8]) -> (r: Result<(usize, Initial), HeaderError>)
    ensures
        r matches Ok((n, h)) ==> ({
            let t = parse_varint(input@).unwrap();
            &&& parse_varint(input@) is Some
            &&& h.token@.len() == t.0
            &&& h.token@ == input@.subrange(t.1 as int, (t.1 + t.0) as int)
            &&& parse_varint(input@.subrange((t.1 + t.0) as int, input@.len() as int)) matches Some(l)
            &&& h.length == l.0
            &&& n == t.1 + t.0 + l.1
        }),
{
    let (tlen, p) = match get_varint(input, 0) {
        Some(x) => x,
        None => return Err(HeaderError::Incomplete),
    };
    assert(input@.subrange(0, input@.len() as int) =~= input@);
    if tlen > (input.len() - p) as u64 {
        return Err(HeaderError::Incomplete);
    }
    let end = p + tlen as usize;
    let token = bytes_of(vstd::slice::slice_subrange(input, p, end));
    let (length, q) = match get_varint(input, end) {
        Some(x) => x,
        None => return Err(HeaderError::Incomplete),
    };
    Ok((end + q, Initial { token, length }))
}

/// Reads a 0-RTT header's specific part: the length of the rest.
pub fn be_zero_rtt(input: &[u8]) -> (r: Result<(usize, ZeroRtt), HeaderError>)
    ensures
        r is Ok <==> parse_varint(input@) is Some,
        r matches Ok((n, h)) ==> h.length == parse_varint(input@).unwrap().0 && n == parse_varint(input@).unwrap().1,
{
    assert(input@.subrange(0, input@.len() as int) =~= input@);
    match get_varint(input, 0) {
        Some((length, n)) => Ok((n, ZeroRtt { length })),
        None => Err(HeaderError::Incomplete),
    }
}

/// Reads a Handshake header's specific part: the length of the rest.
pub fn be_handshake(input: &[u8]) -> (r: Result<(usize, Handshake), HeaderError>)
    ensures
        r is Ok <==> parse_varint(input@) is Some,
        r matches Ok((n, h)) ==> h.length == parse_varint(input@).unwrap().0 && n == parse_varint(input@).unwrap().1,
{
    assert(input@.subrange(0, input@.len() as int) =~= input@);
    match get_varint(input, 0) {
        Some((length, n)) => Ok((n, Handshake { length })),
        None => Err(HeaderError::Incomplete),
    }
}

/// Reads a Retry's specific part: everything but the last 16 bytes is the token, those
/// are the integrity tag; Incomplete under 16 bytes.
pub fn be_retry(input: &[u8]) -> (r: Result<(usize, Retry), HeaderError>)
    ensures
        input@.len() < 16 <==> r is Err,
        r matches Ok((n, h)) ==> n == input@.len() && h.token@ == input@.subrange(0, input@.len() - 16)
            && h.integrity@ == input@.subrange(input@.len() - 16, input@.len() as int),
{
    if input.len() < 16 {
        return Err(HeaderError::Incomplete);
    }
    let k = input.len() - 16;
    let token = vstd::slice::slice_subrange(input, 0, k);
    let integrity = vstd::slice::slice_subrange(input, k, input.len());
    Ok((input.len(), Retry::from_slice(token, integrity)))
}

/// Appends a connection identifier: its length byte, then its bytes.
pub fn put_connection_id(out: &mut Vec<u8>, cid: &ConnectionId)
    requires
        cid@.len() <= MAX_CID_SIZE,
    ensures
        final(out)@ == old(out)@ + seq![cid@.len() as u8] + cid@,
{
    out.push(cid.len() as u8);
    put_bytes(out, cid.as_bytes());
}

/// Appends an Initial long header's identifiers and specific part.
pub fn put_initial_header(out: &mut Vec<u8>, h: &LongHeader<Initial>)
    requires
        h.dcid@.len() <= MAX_CID_SIZE,
        h.scid@.len() <= MAX_CID_SIZE,
        h.specific.token@.len() <= VARINT_MAX,
        h.specific.length <= VARINT_MAX,
    ensures
        final(out)@ == old(out)@ + seq![h.dcid@.len() as u8] + h.dcid@ + seq![h.scid@.len() as u8] + h.scid@
            + vb(h.specific.token@.len() as u64) + h.specific.token@ + vb(h.specific.length),
{
    put_connection_id(out, &h.dcid);
    put_connection_id(out, &h.scid);
    put_varint(out, h.specific.token.len() as u64);
    put_bytes(out, h.specific.token.as_slice());
    put_varint(out, h.specific.length);
}

/// Appends a Handshake long header's identifiers and specific part.
pub fn put_handshake_header(out: &mut Vec<u8>, h: &LongHeader<Handshake>)
    requires
        h.dcid@.len() <= MAX_CID_SIZE,
        h.scid@.len() <= MAX_CID_SIZE,
        h.specific.length <= VARINT_MAX,
    ensures
        final(out)@ == old(out)@ + seq![h.dcid@.len() as u8] + h.dcid@ + seq![h.scid@.len() as u8] + h.scid@
            + vb(h.specific.length),
{
    put_connection_id(out, &h.dcid);
    put_connection_id(out, &h.scid);
    put_varint(out, h.specific.length);
}

/// Appends a Retry long header's identifiers, token and integrity tag (the tag last).
pub fn put_retry_header(out: &mut Vec<u8>, h: &LongHeader<Retry>)
    requires
        h.dcid@.len() <= MAX_CID_SIZE,
        h.scid@.len() <= MAX_CID_SIZE,
    ensures
        final(out)@ == old(out)@ + seq![h.dcid@.len() as u8] + h.dcid@ + seq![h.scid@.len() as u8] + h.scid@
            + h.specific.token@ + h.specific.integrity@,
{
    put_connection_id(out, &h.dcid);
    put_connection_id(out, &h.scid);
    put_bytes(out, h.specific.token.as_slice());
    put_bytes(out, h.specific.integrity.as_slice());
}

/// The type of a long header, as the first byte and version give it.
#[derive(Debug, Clone, Copy, PartialEq, Eq, Structural)]
pub enum LongType {
    VersionNegotiation,
    Retry,
    Initial,
    ZeroRtt,
    Handshake,
}

/// A long header of any type.
#[derive(Debug)]
pub enum Header {
    VN(LongHeader<VersionNegotiation>),
    Retry(LongHeader<Retry>),
    Initial(LongHeader<Initial>),
    ZeroRtt(LongHeader<ZeroRtt>),
    Handshake(LongHeader<Handshake>),
}

impl Header {
    /// The identifiers of the header.
    pub open spec fn cids(&self) -> (Seq<u8>, Seq<u8>) {
        match self {
            Header::VN(h) => (h.dcid@, h.scid@),
            Header::Retry(h) => (h.dcid@, h.scid@),
            Header::Initial(h) => (h.dcid@, h.scid@),
            Header::ZeroRtt(h) => (h.dcid@, h.scid@),
            Header::Handshake(h) => (h.dcid@, h.scid@),
        }
    }
}

impl LongHeaderBuilder {
    /// Reads the type-specific part of a long header of type ty from input and wraps it
    /// with the identifiers: what be_version_negotiation, be_retry, be_initial,
    /// be_zero_rtt or be_handshake read, by type.
    pub fn parse(self, ty: LongType, input: &[u8]) -> (r: Result<(usize, Header), HeaderError>)
        ensures
            r matches Ok((_, h)) ==> h.cids() == (self.dcid@, self.scid@),
            ty == LongType::VersionNegotiation ==> (input@.len() % 4 == 0 <==> r is Ok) && (r matches Ok((n, h)) ==> (h matches Header::VN(x)
                && n == input@.len() && x.specific.versions@.len() == input@.len() / 4
                && forall|i: int| 0 <= i < x.specific.versions@.len() ==> #[trigger] x.specific.versions@[i] == be_u32_of(input@.subrange(4 * i, 4 * i + 4)))),
            ty == LongType::Retry ==> (input@.len() >= 16 <==> r is Ok) && (r matches Ok((n, h)) ==> (h matches Header::Retry(x)
                && n == input@.len() && x.specific.token@ == input@.subrange(0, input@.len() - 16)
                && x.specific.integrity@ == input@.subrange(input@.len() - 16, input@.len() as int))),
            ty == LongType::Initial ==> (r matches Ok((n, h)) ==> (h matches Header::Initial(x) && ({
                let t = parse_varint(input@).unwrap();
                &&& parse_varint(input@) is Some
                &&& x.specific.token@ == input@.subrange(t.1 as int, (t.1 + t.0) as int)
                &&& parse_varint(input@.subrange((t.1 + t.0) as int, input@.len() as int)) matches Some(l)
                &&& x.specific.length == l.0
                &&& n == t.1 + t.0 + l.1
            }))),
            ty == LongType::ZeroRtt ==> (parse_varint(input@) is Some <==> r is Ok) && (r matches Ok((n, h)) ==> (h matches Header::ZeroRtt(x)
                && x.specific.length == parse_varint(input@).unwrap().0 && n == parse_varint(input@).unwrap().1)),
            ty == LongType::Handshake ==> (parse_varint(input@) is Some <==> r is Ok) && (r matches Ok((n, h)) ==> (h matches Header::Handshake(x)
                && x.specific.length == parse_varint(input@).unwrap().0 && n == parse_varint(input@).unwrap().1)),
    {
        match ty {
            LongType::VersionNegotiation => match be_version_negotiation(input) {
                Ok((n, v)) => Ok((n, Header::VN(self.wrap(v)))),
                Err(e) => Err(e),
            },
            LongType::Retry => match be_retry(input) {
                Ok((n, v)) => Ok((n, Header::Retry(self.wrap(v)))),
                Err(e) => Err(e),
            },
            LongType::Initial => match be_initial(input) {
                Ok((n, v)) => Ok((n, Header::Initial(self.wrap(v)))),
                Err(e) => Err(e),
            },
            LongType::ZeroRtt => match be_zero_rtt(input) {
                Ok((n, v)) => Ok((n, Header::ZeroRtt(self.wrap(v)))),
                Err(e) => Err(e),
            },
            LongType::Handshake => match be_handshake(input) {
                Ok((n, v)) => Ok((n, Header::Handshake(self.wrap(v)))),
                Err(e) => Err(e),
            },
        }
    }
}

} // verus!
