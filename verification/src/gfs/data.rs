//! The data plane: requests and replies about chunk bytes, and their framing.
//!
//! A message is written in the `postcard` wire format behind its length, four
//! bytes with the lowest one first.

use vstd::bytes::*;
use vstd::prelude::*;
use vstd::slice::slice_subrange;

use crate::bytes::append_bytes;
use crate::wire::varint;
use crate::wire::Field;

verus! {

/// Globally unique chunk identifier.
pub type ChunkId = u64;

/// Greatest length of an inbound message, in bytes. Guards against a peer that
/// announces a bogus length.
pub const MAX_FRAME_LEN: usize = 64 * 1024 * 1024;

// Addresses.

/// The address of a socket.
#[derive(Clone, Copy, PartialEq, Eq, Debug)]
pub enum Addr {
    V4 { ip: [u8; 4], port: u16 },
    V6 { ip: [u8; 16], port: u16 },
}

/// The address of a socket, over sequences of bytes.
pub enum AddrModel {
    V4(Seq<u8>, u16),
    V6(Seq<u8>, u16),
}

impl View for Addr {
    type V = AddrModel;

    open spec fn view(&self) -> AddrModel {
        match self {
            Addr::V4 { ip, port } => AddrModel::V4(ip@, *port),
            Addr::V6 { ip, port } => AddrModel::V6(ip@, *port),
        }
    }
}

/// Where a socket is reached: its address, and the scope of an IPv6 address, which
/// is 0 if it has none. Only the control plane tells the scope; over the data plane
/// an address travels without it.
#[derive(Clone, Copy, PartialEq, Eq, Debug)]
pub struct Endpoint {
    pub addr: Addr,
    pub scope: u32,
}

/// Where a socket is reached, over sequences of bytes.
pub struct EndpointModel {
    pub addr: AddrModel,
    pub scope: u32,
}

impl View for Endpoint {
    type V = EndpointModel;

    open spec fn view(&self) -> EndpointModel {
        EndpointModel { addr: self.addr@, scope: self.scope }
    }
}

/// The view of an optional endpoint.
pub open spec fn endpoint_view(v: Option<Endpoint>) -> Option<EndpointModel> {
    match v {
        Some(e) => Some(e@),
        None => None,
    }
}

/// What is left of an optional endpoint on the data plane.
pub open spec fn hop_of(v: Option<EndpointModel>) -> Option<AddrModel> {
    match v {
        Some(e) => Some(e.addr),
        None => None,
    }
}

fn octets_4(b: &[u8]) -> (r: [u8; 4])
    requires
        b@.len() == 4,
    ensures
        r@ == b@,
{
    let r: [u8; 4] = [b[0], b[1], b[2], b[3]];
    assert(r@ =~= b@);
    r
}

fn octets_16(b: &[u8]) -> (r: [u8; 16])
    requires
        b@.len() == 16,
    ensures
        r@ == b@,
{
    let r: [u8; 16] = [
        b[0],
        b[1],
        b[2],
        b[3],
        b[4],
        b[5],
        b[6],
        b[7],
        b[8],
        b[9],
        b[10],
        b[11],
        b[12],
        b[13],
        b[14],
        b[15],
    ];
    assert(r@ =~= b@);
    r
}

/// The address of `n` octets at the front of `b`, and the bytes behind it.
pub open spec fn read_octets(b: Seq<u8>, n: int) -> Option<(Seq<u8>, u16, Seq<u8>)> {
    if b.len() < n {
        None
    } else {
        match <u16 as Field>::decoded(b.skip(n)) {
            Some((port, rest)) => Some((b.take(n), port, rest)),
            None => None,
        }
    }
}

impl Field for Addr {
    open spec fn fits(v: AddrModel) -> bool {
        match v {
            AddrModel::V4(ip, _) => ip.len() == 4,
            AddrModel::V6(ip, _) => ip.len() == 16,
        }
    }

    open spec fn encoded(v: AddrModel) -> Seq<u8> {
        match v {
            AddrModel::V4(ip, port) => <u32 as Field>::encoded(0) + (ip + <u16 as Field>::encoded(
                port,
            )),
            AddrModel::V6(ip, port) => <u32 as Field>::encoded(1) + (ip + <u16 as Field>::encoded(
                port,
            )),
        }
    }

    open spec fn decoded(b: Seq<u8>) -> Option<(AddrModel, Seq<u8>)> {
        match <u32 as Field>::decoded(b) {
            Some((tag, rest)) => if tag == 0 {
                match read_octets(rest, 4) {
                    Some((ip, port, rest)) => Some((AddrModel::V4(ip, port), rest)),
                    None => None,
                }
            } else if tag == 1 {
                match read_octets(rest, 16) {
                    Some((ip, port, rest)) => Some((AddrModel::V6(ip, port), rest)),
                    None => None,
                }
            } else {
                None
            },
            None => None,
        }
    }

    proof fn read_back(v: AddrModel, rest: Seq<u8>) {
        let (tag, ip, port) = match v {
            AddrModel::V4(ip, port) => (0u32, ip, port),
            AddrModel::V6(ip, port) => (1u32, ip, port),
        };
        let p = <u16 as Field>::encoded(port);
        let tail = ip + (p + rest);
        assert(Self::encoded(v) + rest =~= <u32 as Field>::encoded(tag) + tail);
        <u32 as Field>::read_back(tag, tail);
        assert(tail.take(ip.len() as int) =~= ip);
        assert(tail.skip(ip.len() as int) =~= p + rest);
        <u16 as Field>::read_back(port, rest);
    }

    proof fn shortest(b: Seq<u8>) {
        <u32 as Field>::shortest(b);
        match <u32 as Field>::decoded(b) {
            Some((_, rest)) => {
                <u16 as Field>::shortest(rest.skip(4));
                <u16 as Field>::shortest(rest.skip(16));
            },
            None => {},
        }
    }

    fn encode(&self) -> (r: Vec<u8>) {
        match self {
            Addr::V4 { ip, port } => {
                let tag: u32 = 0;
                let mut out: Vec<u8> = tag.encode();
                append_bytes(&mut out, ip.as_slice());
                append_bytes(&mut out, port.encode().as_slice());
                assert(out@ =~= Self::encoded(self@));
                out
            },
            Addr::V6 { ip, port } => {
                let tag: u32 = 1;
                let mut out: Vec<u8> = tag.encode();
                append_bytes(&mut out, ip.as_slice());
                append_bytes(&mut out, port.encode().as_slice());
                assert(out@ =~= Self::encoded(self@));
                out
            },
        }
    }

    fn decode<'a>(b: &'a [u8]) -> (r: Option<(Self, &'a [u8])>) {
        let (tag, rest) = match <u32 as Field>::decode(b) {
            Some(x) => x,
            None => {
                return None;
            },
        };
        let n: usize = if tag == 0 {
            4
        } else if tag == 1 {
            16
        } else {
            return None;
        };
        if rest.len() < n {
            return None;
        }
        let ip: &[u8] = slice_subrange(rest, 0, n);
        let tail: &'a [u8] = slice_subrange(rest, n, rest.len());
        proof {
            assert(ip@ =~= rest@.take(n as int));
            assert(tail@ =~= rest@.skip(n as int));
        }
        match <u16 as Field>::decode(tail) {
            Some((port, left)) => if tag == 0 {
                Some((Addr::V4 { ip: octets_4(ip), port }, left))
            } else {
                Some((Addr::V6 { ip: octets_16(ip), port }, left))
            },
            None => None,
        }
    }

    fn duplicate(&self) -> (r: Self) {
        *self
    }
}

// An address that may be missing.

/// An optional address as bytes.
pub open spec fn hop_bytes(v: Option<AddrModel>) -> Seq<u8> {
    match v {
        Some(a) => seq![1u8] + <Addr as Field>::encoded(a),
        None => seq![0u8],
    }
}

/// The optional address at the front of `b`, and the bytes behind it.
pub open spec fn read_hop(b: Seq<u8>) -> Option<(Option<AddrModel>, Seq<u8>)> {
    if b.len() == 0 {
        None
    } else if b[0] == 0 {
        Some((None, b.skip(1)))
    } else if b[0] == 1 {
        match <Addr as Field>::decoded(b.skip(1)) {
            Some((a, rest)) => Some((Some(a), rest)),
            None => None,
        }
    } else {
        None
    }
}

/// Whether an optional address is well-formed.
pub open spec fn hop_fits(v: Option<AddrModel>) -> bool {
    match v {
        Some(a) => <Addr as Field>::fits(a),
        None => true,
    }
}

/// The view of an optional address.
pub open spec fn hop_view(v: Option<Addr>) -> Option<AddrModel> {
    match v {
        Some(a) => Some(a@),
        None => None,
    }
}

proof fn lemma_hop_read_back(v: Option<AddrModel>, rest: Seq<u8>)
    requires
        hop_fits(v),
    ensures
        read_hop(hop_bytes(v) + rest) == Some((v, rest)),
{
    let b = hop_bytes(v) + rest;
    match v {
        Some(a) => {
            assert(b.skip(1) =~= <Addr as Field>::encoded(a) + rest);
            <Addr as Field>::read_back(a, rest);
        },
        None => {
            assert(b.skip(1) =~= rest);
        },
    }
}

proof fn lemma_hop_shortest(b: Seq<u8>)
    ensures
        match read_hop(b) {
            Some((v, rest)) => hop_fits(v) && hop_bytes(v).len() + rest.len() <= b.len(),
            None => true,
        },
{
    if b.len() > 0 {
        <Addr as Field>::shortest(b.skip(1));
    }
}

fn encode_hop(v: &Option<Addr>) -> (r: Vec<u8>)
    ensures
        r@ == hop_bytes(hop_view(*v)),
        hop_fits(hop_view(*v)),
{
    match v {
        Some(a) => {
            let mut out: Vec<u8> = Vec::new();
            out.push(1);
            append_bytes(&mut out, a.encode().as_slice());
            assert(out@ =~= hop_bytes(hop_view(*v)));
            out
        },
        None => {
            let mut out: Vec<u8> = Vec::new();
            out.push(0);
            assert(out@ =~= hop_bytes(hop_view(*v)));
            out
        },
    }
}

fn decode_hop<'a>(b: &'a [u8]) -> (r: Option<(Option<Addr>, &'a [u8])>)
    ensures
        match read_hop(b@) {
            Some((v, rest)) => r matches Some((got, left)) && hop_view(got) == v && left@ == rest,
            None => r is None,
        },
{
    if b.len() == 0 {
        return None;
    }
    let tail: &'a [u8] = slice_subrange(b, 1, b.len());
    assert(tail@ =~= b@.skip(1));
    if b[0] == 0 {
        Some((None, tail))
    } else if b[0] == 1 {
        match <Addr as Field>::decode(tail) {
            Some((a, left)) => Some((Some(a), left)),
            None => None,
        }
    } else {
        None
    }
}

// Requests.

/// A single request on the data plane.
#[derive(Clone, Debug, PartialEq, Eq)]
pub enum DataRequest {
    /// Store `payload` as chunk `chunk_id`. If `forward_to` is an address, the
    /// receiver is the primary of a chain-replicated write and must forward the
    /// same payload there before it acknowledges.
    Write { chunk_id: ChunkId, forward_to: Option<Addr>, payload: Vec<u8> },
    /// Read the full contents of chunk `chunk_id`.
    Read { chunk_id: ChunkId },
    /// Read only the bytes from `offset` up to `offset + len` of chunk
    /// `chunk_id`, as far as there are any.
    ReadRange { chunk_id: ChunkId, offset: u64, len: u64 },
}

/// A single request, over sequences of bytes.
pub enum DataRequestModel {
    Write(ChunkId, Option<AddrModel>, Seq<u8>),
    Read(ChunkId),
    ReadRange(ChunkId, u64, u64),
}

impl View for DataRequest {
    type V = DataRequestModel;

    open spec fn view(&self) -> DataRequestModel {
        match self {
            DataRequest::Write { chunk_id, forward_to, payload } => DataRequestModel::Write(
                *chunk_id,
                hop_view(*forward_to),
                payload@,
            ),
            DataRequest::Read { chunk_id } => DataRequestModel::Read(*chunk_id),
            DataRequest::ReadRange { chunk_id, offset, len } => DataRequestModel::ReadRange(
                *chunk_id,
                *offset,
                *len,
            ),
        }
    }
}

/// A write at the front of `b`, behind its tag.
pub open spec fn read_write(b: Seq<u8>) -> Option<(DataRequestModel, Seq<u8>)> {
    match <u64 as Field>::decoded(b) {
        Some((id, rest)) => match read_hop(rest) {
            Some((hop, rest)) => match <Vec<u8> as Field>::decoded(rest) {
                Some((payload, rest)) => Some((DataRequestModel::Write(id, hop, payload), rest)),
                None => None,
            },
            None => None,
        },
        None => None,
    }
}

/// A range read at the front of `b`, behind its tag.
pub open spec fn read_range(b: Seq<u8>) -> Option<(DataRequestModel, Seq<u8>)> {
    match <u64 as Field>::decoded(b) {
        Some((id, rest)) => match <u64 as Field>::decoded(rest) {
            Some((offset, rest)) => match <u64 as Field>::decoded(rest) {
                Some((len, rest)) => Some((DataRequestModel::ReadRange(id, offset, len), rest)),
                None => None,
            },
            None => None,
        },
        None => None,
    }
}

proof fn lemma_write_read_back(
    id: ChunkId,
    hop: Option<AddrModel>,
    payload: Seq<u8>,
    rest: Seq<u8>,
)
    requires
        hop_fits(hop),
        <Vec<u8> as Field>::fits(payload),
    ensures
        read_write(
            <u64 as Field>::encoded(id) + (hop_bytes(hop) + <Vec<u8> as Field>::encoded(payload))
                + rest,
        ) == Some((DataRequestModel::Write(id, hop, payload), rest)),
{
    let p = <Vec<u8> as Field>::encoded(payload);
    let c = p + rest;
    let b = hop_bytes(hop) + c;
    let a = <u64 as Field>::encoded(id);
    assert(a + (hop_bytes(hop) + p) + rest =~= a + b);
    <u64 as Field>::read_back(id, b);
    lemma_hop_read_back(hop, c);
    <Vec<u8> as Field>::read_back(payload, rest);
}

proof fn lemma_range_read_back(id: ChunkId, offset: u64, len: u64, rest: Seq<u8>)
    ensures
        read_range(
            <u64 as Field>::encoded(id) + (<u64 as Field>::encoded(offset)
                + <u64 as Field>::encoded(len)) + rest,
        ) == Some((DataRequestModel::ReadRange(id, offset, len), rest)),
{
    let l = <u64 as Field>::encoded(len);
    let o = <u64 as Field>::encoded(offset);
    let a = <u64 as Field>::encoded(id);
    assert(a + (o + l) + rest =~= a + (o + (l + rest)));
    <u64 as Field>::read_back(id, o + (l + rest));
    <u64 as Field>::read_back(offset, l + rest);
    <u64 as Field>::read_back(len, rest);
}

impl Field for DataRequest {
    open spec fn fits(v: DataRequestModel) -> bool {
        match v {
            DataRequestModel::Write(_, hop, payload) => hop_fits(hop) && <Vec<u8> as Field>::fits(
                payload,
            ),
            _ => true,
        }
    }

    open spec fn encoded(v: DataRequestModel) -> Seq<u8> {
        match v {
            DataRequestModel::Write(id, hop, payload) => <u32 as Field>::encoded(0) + (
            <u64 as Field>::encoded(id) + (hop_bytes(hop) + <Vec<u8> as Field>::encoded(payload))),
            DataRequestModel::Read(id) => <u32 as Field>::encoded(1) + <u64 as Field>::encoded(id),
            DataRequestModel::ReadRange(id, offset, len) => <u32 as Field>::encoded(2) + (
            <u64 as Field>::encoded(id) + (<u64 as Field>::encoded(offset)
                + <u64 as Field>::encoded(len))),
        }
    }

    open spec fn decoded(b: Seq<u8>) -> Option<(DataRequestModel, Seq<u8>)> {
        match <u32 as Field>::decoded(b) {
            Some((tag, rest)) => if tag == 0 {
                read_write(rest)
            } else if tag == 1 {
                match <u64 as Field>::decoded(rest) {
                    Some((id, rest)) => Some((DataRequestModel::Read(id), rest)),
                    None => None,
                }
            } else if tag == 2 {
                read_range(rest)
            } else {
                None
            },
            None => None,
        }
    }

    proof fn read_back(v: DataRequestModel, rest: Seq<u8>) {
        match v {
            DataRequestModel::Write(id, hop, payload) => {
                let a = <u64 as Field>::encoded(id) + (hop_bytes(hop)
                    + <Vec<u8> as Field>::encoded(payload));
                assert(Self::encoded(v) + rest =~= <u32 as Field>::encoded(0) + (a + rest));
                <u32 as Field>::read_back(0, a + rest);
                lemma_write_read_back(id, hop, payload, rest);
            },
            DataRequestModel::Read(id) => {
                let a = <u64 as Field>::encoded(id) + rest;
                assert(Self::encoded(v) + rest =~= <u32 as Field>::encoded(1) + a);
                <u32 as Field>::read_back(1, a);
                <u64 as Field>::read_back(id, rest);
            },
            DataRequestModel::ReadRange(id, offset, len) => {
                let a = <u64 as Field>::encoded(id) + (<u64 as Field>::encoded(offset)
                    + <u64 as Field>::encoded(len));
                assert(Self::encoded(v) + rest =~= <u32 as Field>::encoded(2) + (a + rest));
                <u32 as Field>::read_back(2, a + rest);
                lemma_range_read_back(id, offset, len, rest);
            },
        }
    }

    proof fn shortest(b: Seq<u8>) {
        <u32 as Field>::shortest(b);
        match <u32 as Field>::decoded(b) {
            Some((_, b1)) => {
                <u64 as Field>::shortest(b1);
                match <u64 as Field>::decoded(b1) {
                    Some((_, b2)) => {
                        lemma_hop_shortest(b2);
                        match read_hop(b2) {
                            Some((_, b3)) => {
                                <Vec<u8> as Field>::shortest(b3);
                            },
                            None => {},
                        }
                        <u64 as Field>::shortest(b2);
                        match <u64 as Field>::decoded(b2) {
                            Some((_, b3)) => {
                                <u64 as Field>::shortest(b3);
                            },
                            None => {},
                        }
                    },
                    None => {},
                }
            },
            None => {},
        }
    }

    fn encode(&self) -> (r: Vec<u8>) {
        match self {
            DataRequest::Write { chunk_id, forward_to, payload } => {
                let tag: u32 = 0;
                let mut out: Vec<u8> = tag.encode();
                append_bytes(&mut out, chunk_id.encode().as_slice());
                append_bytes(&mut out, encode_hop(forward_to).as_slice());
                append_bytes(&mut out, payload.encode().as_slice());
                assert(out@ =~= Self::encoded(self@));
                out
            },
            DataRequest::Read { chunk_id } => {
                let tag: u32 = 1;
                let mut out: Vec<u8> = tag.encode();
                append_bytes(&mut out, chunk_id.encode().as_slice());
                out
            },
            DataRequest::ReadRange { chunk_id, offset, len } => {
                let tag: u32 = 2;
                let mut out: Vec<u8> = tag.encode();
                append_bytes(&mut out, chunk_id.encode().as_slice());
                append_bytes(&mut out, offset.encode().as_slice());
                append_bytes(&mut out, len.encode().as_slice());
                assert(out@ =~= Self::encoded(self@));
                out
            },
        }
    }

    fn decode<'a>(b: &'a [u8]) -> (r: Option<(Self, &'a [u8])>) {
        let (tag, b1) = match <u32 as Field>::decode(b) {
            Some(x) => x,
            None => {
                return None;
            },
        };
        if tag > 2 {
            return None;
        }
        let (chunk_id, b2) = match <u64 as Field>::decode(b1) {
            Some(x) => x,
            None => {
                return None;
            },
        };
        if tag == 0 {
            match decode_hop(b2) {
                Some((forward_to, b3)) => match <Vec<u8> as Field>::decode(b3) {
                    Some((payload, left)) => Some(
                        (DataRequest::Write { chunk_id, forward_to, payload }, left),
                    ),
                    None => None,
                },
                None => None,
            }
        } else if tag == 1 {
            Some((DataRequest::Read { chunk_id }, b2))
        } else {
            match <u64 as Field>::decode(b2) {
                Some((offset, b3)) => match <u64 as Field>::decode(b3) {
                    Some((len, left)) => Some(
                        (DataRequest::ReadRange { chunk_id, offset, len }, left),
                    ),
                    None => None,
                },
                None => None,
            }
        }
    }

    fn duplicate(&self) -> (r: Self) {
        match self {
            DataRequest::Write { chunk_id, forward_to, payload } => DataRequest::Write {
                chunk_id: *chunk_id,
                forward_to: *forward_to,
                payload: payload.duplicate(),
            },
            DataRequest::Read { chunk_id } => DataRequest::Read { chunk_id: *chunk_id },
            DataRequest::ReadRange { chunk_id, offset, len } => DataRequest::ReadRange {
                chunk_id: *chunk_id,
                offset: *offset,
                len: *len,
            },
        }
    }
}

// Replies.

/// A single reply on the data plane.
#[derive(Clone, Debug, PartialEq, Eq)]
pub enum DataResponse {
    /// A write (and any forward) completed successfully.
    Written,
    /// A read returned these bytes.
    Data(Vec<u8>),
    /// The requested chunk is not present on this server.
    NotFound,
    /// Generic failure with a human-readable message.
    Error(String),
}

/// A single reply, over sequences.
pub enum DataResponseModel {
    Written,
    Data(Seq<u8>),
    NotFound,
    Error(Seq<char>),
}

impl View for DataResponse {
    type V = DataResponseModel;

    open spec fn view(&self) -> DataResponseModel {
        match self {
            DataResponse::Written => DataResponseModel::Written,
            DataResponse::Data(d) => DataResponseModel::Data(d@),
            DataResponse::NotFound => DataResponseModel::NotFound,
            DataResponse::Error(m) => DataResponseModel::Error(m@),
        }
    }
}

impl Field for DataResponse {
    open spec fn fits(v: DataResponseModel) -> bool {
        match v {
            DataResponseModel::Data(d) => <Vec<u8> as Field>::fits(d),
            DataResponseModel::Error(m) => <String as Field>::fits(m),
            _ => true,
        }
    }

    open spec fn encoded(v: DataResponseModel) -> Seq<u8> {
        match v {
            DataResponseModel::Written => <u32 as Field>::encoded(0),
            DataResponseModel::Data(d) => <u32 as Field>::encoded(1)
                + <Vec<u8> as Field>::encoded(d),
            DataResponseModel::NotFound => <u32 as Field>::encoded(2),
            DataResponseModel::Error(m) => <u32 as Field>::encoded(3)
                + <String as Field>::encoded(m),
        }
    }

    open spec fn decoded(b: Seq<u8>) -> Option<(DataResponseModel, Seq<u8>)> {
        match <u32 as Field>::decoded(b) {
            Some((tag, rest)) => if tag == 0 {
                Some((DataResponseModel::Written, rest))
            } else if tag == 1 {
                match <Vec<u8> as Field>::decoded(rest) {
                    Some((d, rest)) => Some((DataResponseModel::Data(d), rest)),
                    None => None,
                }
            } else if tag == 2 {
                Some((DataResponseModel::NotFound, rest))
            } else if tag == 3 {
                match <String as Field>::decoded(rest) {
                    Some((m, rest)) => Some((DataResponseModel::Error(m), rest)),
                    None => None,
                }
            } else {
                None
            },
            None => None,
        }
    }

    proof fn read_back(v: DataResponseModel, rest: Seq<u8>) {
        match v {
            DataResponseModel::Written => {
                <u32 as Field>::read_back(0, rest);
            },
            DataResponseModel::Data(d) => {
                let a = <Vec<u8> as Field>::encoded(d) + rest;
                assert(Self::encoded(v) + rest =~= <u32 as Field>::encoded(1) + a);
                <u32 as Field>::read_back(1, a);
                <Vec<u8> as Field>::read_back(d, rest);
            },
            DataResponseModel::NotFound => {
                <u32 as Field>::read_back(2, rest);
            },
            DataResponseModel::Error(m) => {
                let a = <String as Field>::encoded(m) + rest;
                assert(Self::encoded(v) + rest =~= <u32 as Field>::encoded(3) + a);
                <u32 as Field>::read_back(3, a);
                <String as Field>::read_back(m, rest);
            },
        }
    }

    proof fn shortest(b: Seq<u8>) {
        <u32 as Field>::shortest(b);
        match <u32 as Field>::decoded(b) {
            Some((_, rest)) => {
                <Vec<u8> as Field>::shortest(rest);
                <String as Field>::shortest(rest);
            },
            None => {},
        }
    }

    fn encode(&self) -> (r: Vec<u8>) {
        match self {
            DataResponse::Written => {
                let tag: u32 = 0;
                tag.encode()
            },
            DataResponse::Data(d) => {
                let tag: u32 = 1;
                let mut out: Vec<u8> = tag.encode();
                append_bytes(&mut out, d.encode().as_slice());
                out
            },
            DataResponse::NotFound => {
                let tag: u32 = 2;
                tag.encode()
            },
            DataResponse::Error(m) => {
                let tag: u32 = 3;
                let mut out: Vec<u8> = tag.encode();
                append_bytes(&mut out, m.encode().as_slice());
                out
            },
        }
    }

    fn decode<'a>(b: &'a [u8]) -> (r: Option<(Self, &'a [u8])>) {
        let (tag, rest) = match <u32 as Field>::decode(b) {
            Some(x) => x,
            None => {
                return None;
            },
        };
        if tag == 0 {
            Some((DataResponse::Written, rest))
        } else if tag == 1 {
            match <Vec<u8> as Field>::decode(rest) {
                Some((d, left)) => Some((DataResponse::Data(d), left)),
                None => None,
            }
        } else if tag == 2 {
            Some((DataResponse::NotFound, rest))
        } else if tag == 3 {
            match <String as Field>::decode(rest) {
                Some((m, left)) => Some((DataResponse::Error(m), left)),
                None => None,
            }
        } else {
            None
        }
    }

    fn duplicate(&self) -> (r: Self) {
        match self {
            DataResponse::Written => DataResponse::Written,
            DataResponse::Data(d) => DataResponse::Data(d.duplicate()),
            DataResponse::NotFound => DataResponse::NotFound,
            DataResponse::Error(m) => DataResponse::Error(m.duplicate()),
        }
    }
}

// Framing.

/// A message that is too long to be framed.
#[derive(Clone, Copy, PartialEq, Eq, Structural, Debug)]
pub struct FrameTooLarge;

impl FrameTooLarge {
    /// The text shown to a person.
    pub fn message(&self) -> (r: String)
        ensures
            r@ == "frame too large"@,
    {
        "frame too large".to_owned()
    }
}

/// The bytes of a message behind their length.
pub open spec fn framed(body: Seq<u8>) -> Seq<u8> {
    spec_u32_to_le_bytes(body.len() as u32) + body
}

/// Writes `msg` as one frame.
pub fn write_frame<T: Field>(msg: &T) -> (r: Result<Vec<u8>, FrameTooLarge>)
    ensures
        match r {
            Ok(bytes) => {
                &&& T::fits(msg@)
                &&& T::encoded(msg@).len() <= u32::MAX
                &&& bytes@ == framed(T::encoded(msg@))
            },
            Err(_) => T::encoded(msg@).len() > u32::MAX,
        },
{
    let body: Vec<u8> = msg.encode();
    if body.len() as u64 > u32::MAX as u64 {
        return Err(FrameTooLarge);
    }
    let mut out: Vec<u8> = u32_to_le_bytes(body.len() as u32);
    append_bytes(&mut out, body.as_slice());
    Ok(out)
}

/// What is found at the front of the bytes that have arrived.
pub enum Arrival<T> {
    /// A message, and the length of its frame.
    Message(T, usize),
    /// More bytes have to arrive.
    Incomplete,
    /// The announced length is over the limit.
    TooLong(u32),
    /// The bytes of the frame are no message.
    Malformed,
}

/// What is found at the front of `buf`.
pub open spec fn arrival_of<T: Field>(buf: Seq<u8>) -> Arrival<T::V> {
    if buf.len() < 4 {
        Arrival::Incomplete
    } else {
        let len = spec_u32_from_le_bytes(buf.take(4));
        if len > MAX_FRAME_LEN {
            Arrival::TooLong(len)
        } else if buf.len() < 4 + len {
            Arrival::Incomplete
        } else {
            match T::decoded(buf.subrange(4, 4 + len)) {
                Some((v, _)) => Arrival::Message(v, (4 + len) as usize),
                None => Arrival::Malformed,
            }
        }
    }
}

/// Reads one frame from the front of the bytes that have arrived.
pub fn read_frame<T: Field>(buf: &[u8]) -> (r: Arrival<T>)
    ensures
        match r {
            Arrival::Message(v, n) => arrival_of::<T>(buf@) == Arrival::Message(v@, n) && n
                <= buf@.len(),
            Arrival::Incomplete => arrival_of::<T>(buf@) is Incomplete,
            Arrival::TooLong(len) => arrival_of::<T>(buf@) == Arrival::<T::V>::TooLong(len),
            Arrival::Malformed => arrival_of::<T>(buf@) is Malformed,
        },
{
    if buf.len() < 4 {
        return Arrival::Incomplete;
    }
    assert(buf@.subrange(0, 4) =~= buf@.take(4));
    let len: u32 = u32_from_le_bytes(slice_subrange(buf, 0, 4));
    if len as usize > MAX_FRAME_LEN {
        return Arrival::TooLong(len);
    }
    if buf.len() - 4 < len as usize {
        return Arrival::Incomplete;
    }
    let end: usize = 4 + len as usize;
    match T::decode(slice_subrange(buf, 4, end)) {
        Some((v, _)) => Arrival::Message(v, end),
        None => Arrival::Malformed,
    }
}

/// A framed message is read back, whatever follows it.
pub proof fn law_frame_round_trip<T: Field>(v: T::V, rest: Seq<u8>)
    requires
        T::fits(v),
        T::encoded(v).len() <= MAX_FRAME_LEN,
    ensures
        arrival_of::<T>(framed(T::encoded(v)) + rest) == Arrival::Message(
            v,
            framed(T::encoded(v)).len() as usize,
        ),
{
    lemma_auto_spec_u32_to_from_le_bytes();
    let body = T::encoded(v);
    let buf = framed(body) + rest;
    assert(buf.take(4) =~= spec_u32_to_le_bytes(body.len() as u32));
    assert(buf.subrange(4, (4 + body.len()) as int) =~= body);
    assert(body =~= body + Seq::<u8>::empty());
    T::read_back(v, Seq::empty());
}

/// A frame that has not arrived whole is waited for.
pub proof fn law_partial_frame_is_incomplete<T: Field>(v: T::V, cut: int)
    requires
        T::encoded(v).len() <= MAX_FRAME_LEN,
        0 <= cut < framed(T::encoded(v)).len(),
    ensures
        arrival_of::<T>(framed(T::encoded(v)).take(cut)) is Incomplete,
{
    lemma_auto_spec_u32_to_from_le_bytes();
    let body = T::encoded(v);
    let buf = framed(body).take(cut);
    if cut >= 4 {
        assert(buf.take(4) =~= spec_u32_to_le_bytes(body.len() as u32));
    }
}

// What the bytes mean.

/// How addresses are written: 0, four octets and the port, or 1, sixteen octets and the
/// port. An address that is missing is the byte 0; one that is there follows the byte 1.
pub proof fn law_address_bytes(ip: Seq<u8>, port: u16, a: AddrModel)
    ensures
        <Addr as Field>::encoded(AddrModel::V4(ip, port)) == seq![0u8] + ip + varint(port as nat),
        <Addr as Field>::encoded(AddrModel::V6(ip, port)) == seq![1u8] + ip + varint(port as nat),
        hop_bytes(None) == seq![0u8],
        hop_bytes(Some(a)) == seq![1u8] + <Addr as Field>::encoded(a),
        forall|x: &Addr, r: Vec<u8>| #[trigger]
            call_ensures(<Addr as Field>::encode, (x,), r) ==> match x {
                Addr::V4 { ip, port } => r@ == seq![0u8] + ip@ + varint(*port as nat),
                Addr::V6 { ip, port } => r@ == seq![1u8] + ip@ + varint(*port as nat),
            },
{
    assert(varint(0) =~= seq![0u8]);
    assert(varint(1) =~= seq![1u8]);
    assert(varint(0) + (ip + varint(port as nat)) =~= seq![0u8] + ip + varint(port as nat));
    assert(varint(1) + (ip + varint(port as nat)) =~= seq![1u8] + ip + varint(port as nat));
    assert forall|x: &Addr, r: Vec<u8>| #[trigger]
        call_ensures(<Addr as Field>::encode, (x,), r) implies match x {
        Addr::V4 { ip, port } => r@ == seq![0u8] + ip@ + varint(*port as nat),
        Addr::V6 { ip, port } => r@ == seq![1u8] + ip@ + varint(*port as nat),
    } by {
        match x {
            Addr::V4 { ip, port } => {
                assert(varint(0) + (ip@ + varint(*port as nat)) =~= seq![0u8] + ip@ + varint(
                    *port as nat,
                ));
            },
            Addr::V6 { ip, port } => {
                assert(varint(1) + (ip@ + varint(*port as nat)) =~= seq![1u8] + ip@ + varint(
                    *port as nat,
                ));
            },
        }
    }
}

/// How requests are written: 0 for a write, with the chunk, where it is forwarded to and
/// the bytes; 1 for a read, with the chunk; 2 for a range, with the chunk, the offset
/// and the length. Behind a greater number there is no request.
pub proof fn law_request_bytes(
    id: ChunkId,
    hop: Option<AddrModel>,
    data: Seq<u8>,
    offset: u64,
    len: u64,
    tag: u32,
    rest: Seq<u8>,
)
    ensures
        <DataRequest as Field>::encoded(DataRequestModel::Write(id, hop, data)) == seq![0u8]
            + varint(id as nat) + hop_bytes(hop) + (varint(data.len()) + data),
        <DataRequest as Field>::encoded(DataRequestModel::Read(id)) == seq![1u8] + varint(
            id as nat,
        ),
        <DataRequest as Field>::encoded(DataRequestModel::ReadRange(id, offset, len)) == seq![2u8]
            + varint(id as nat) + varint(offset as nat) + varint(len as nat),
        tag > 2 ==> <DataRequest as Field>::decoded(varint(tag as nat) + rest) is None,
{
    assert(varint(0) =~= seq![0u8]);
    assert(varint(1) =~= seq![1u8]);
    assert(varint(2) =~= seq![2u8]);
    let i = varint(id as nat);
    let p = varint(data.len()) + data;
    assert(varint(0) + (i + (hop_bytes(hop) + p)) =~= seq![0u8] + i + hop_bytes(hop) + p);
    let o = varint(offset as nat);
    let l = varint(len as nat);
    assert(varint(2) + (i + (o + l)) =~= seq![2u8] + i + o + l);
    <u32 as Field>::read_back(tag, rest);
}

/// How replies are written: 0 for a write that is done, 1 for bytes, 2 for a chunk that
/// is not there, 3 for a failure with its text. Behind a greater number there is none.
pub proof fn law_reply_bytes(data: Seq<u8>, text: Seq<char>, tag: u32, rest: Seq<u8>)
    ensures
        <DataResponse as Field>::encoded(DataResponseModel::Written) == seq![0u8],
        <DataResponse as Field>::encoded(DataResponseModel::Data(data)) == seq![1u8] + (varint(
            data.len(),
        ) + data),
        <DataResponse as Field>::encoded(DataResponseModel::NotFound) == seq![2u8],
        <DataResponse as Field>::encoded(DataResponseModel::Error(text)) == seq![3u8]
            + <String as Field>::encoded(text),
        tag > 3 ==> <DataResponse as Field>::decoded(varint(tag as nat) + rest) is None,
{
    assert(varint(0) =~= seq![0u8]);
    assert(varint(1) =~= seq![1u8]);
    assert(varint(2) =~= seq![2u8]);
    assert(varint(3) =~= seq![3u8]);
    <u32 as Field>::read_back(tag, rest);
}

/// A request or a reply stands for what its parts say, each in its own place; and only
/// the address of an endpoint travels.
pub proof fn law_message_views(e: Endpoint, r: DataRequest, p: DataResponse)
    ensures
        match r {
            DataRequest::Write { chunk_id, forward_to, payload } => r@ == DataRequestModel::Write(
                chunk_id,
                match forward_to {
                    Some(a) => Some(a@),
                    None => None,
                },
                payload@,
            ),
            DataRequest::Read { chunk_id } => r@ == DataRequestModel::Read(chunk_id),
            DataRequest::ReadRange { chunk_id, offset, len } => r@ == DataRequestModel::ReadRange(
                chunk_id,
                offset,
                len,
            ),
        },
        match p {
            DataResponse::Written => p@ == DataResponseModel::Written,
            DataResponse::Data(d) => p@ == DataResponseModel::Data(d@),
            DataResponse::NotFound => p@ == DataResponseModel::NotFound,
            DataResponse::Error(m) => p@ == DataResponseModel::Error(m@),
        },
        e@.addr == e.addr@,
        e@.scope == e.scope,
        hop_of(Some(e@)) == Some(e.addr@),
        hop_of(None) is None,
{
}

/// What is found at the front of the bytes that have arrived: the first four give the
/// length of a message. Over 67108864 it is refused; a message that is not whole is
/// waited for; and one that is whole is read, if it can be.
pub proof fn law_arrival<T: Field>(buf: Seq<u8>)
    ensures
        ({
            let len = spec_u32_from_le_bytes(buf.take(4));
            let body = buf.subrange(4, 4 + len);
            let found = arrival_of::<T>(buf);
            &&& buf.len() < 4 ==> found is Incomplete
            &&& buf.len() >= 4 && len > 67108864 ==> found == Arrival::<T::V>::TooLong(len)
            &&& buf.len() >= 4 && len <= 67108864 && buf.len() < 4 + len ==> found is Incomplete
            &&& buf.len() >= 4 && len <= 67108864 && buf.len() >= 4 + len ==> {
                &&& T::decoded(body) is None ==> found is Malformed
                &&& T::decoded(body) is Some ==> found == Arrival::Message(
                    (T::decoded(body)->0).0,
                    (4 + len) as usize,
                )
            }
        }),
        MAX_FRAME_LEN == 67108864,
        forall|m: &T, r: Result<Vec<u8>, FrameTooLarge>| #[trigger]
            call_ensures(write_frame::<T>, (m,), r) ==> {
                let body = T::encoded(m@);
                &&& r is Ok <==> body.len() <= 4294967295
                &&& r is Ok ==> r->Ok_0@ == spec_u32_to_le_bytes(body.len() as u32) + body
            },
        forall|b: &[u8], r: Arrival<T>| #[trigger]
            call_ensures(read_frame::<T>, (b,), r) ==> match r {
                Arrival::Message(v, n) => arrival_of::<T>(b@) == Arrival::Message(v@, n),
                Arrival::Incomplete => arrival_of::<T>(b@) is Incomplete,
                Arrival::TooLong(len) => arrival_of::<T>(b@) == Arrival::<T::V>::TooLong(len),
                Arrival::Malformed => arrival_of::<T>(b@) is Malformed,
            },
{
}

/// Behind a byte other than 0 and 1 there is no optional address, behind a number other
/// than 0 and 1 no address, and too few bytes hold none.
pub proof fn law_no_address(b: Seq<u8>, tag: u32)
    ensures
        b.len() > 0 && b[0] > 1 ==> read_hop(b) is None,
        read_hop(Seq::empty()) is None,
        b.len() > 0 && b[0] == 0 ==> read_hop(b) == Some((None::<AddrModel>, b.skip(1))),
        tag > 1 ==> <Addr as Field>::decoded(varint(tag as nat) + b) is None,
        b.len() < 4 ==> <Addr as Field>::decoded(seq![0u8] + b) is None,
        b.len() < 16 ==> <Addr as Field>::decoded(seq![1u8] + b) is None,
{
    <u32 as Field>::read_back(tag, b);
    <u32 as Field>::read_back(0, b);
    <u32 as Field>::read_back(1, b);
    assert(varint(0) =~= seq![0u8]);
    assert(varint(1) =~= seq![1u8]);
}

} // verus!
