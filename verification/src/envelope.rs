//! The request/response envelope and the wire frame.
//!
//! Every message on the wire is one frame: a 32-bit unsigned length
//! followed by that many body bytes.  A request body begins with a
//! `RequestHeader` — api key, api version, correlation id, optional
//! client id — and a response body begins with the correlation id that
//! routes it back to its caller.  Correlation id zero is reserved for
//! unsolicited messages; the multiplexer allocates ids from one
//! upward.

use vstd::prelude::*;

use crate::error::ErrorKind;
use crate::fixint::{
    be_enc, be_val, i32_repr, i32_from_repr, encode_u16, encode_u32, encode_i32, decode_u16,
    decode_u32, decode_i32, lemma_be_enc_len, lemma_be_val_enc, lemma_i32_repr_bound,
    lemma_i32_repr_round, pow256,
};
use crate::record::{opt_bytes_enc, opt_bytes_dec, decode_opt_bytes, lemma_opt_bytes_round_trip};
use crate::varint::{encode_varint, varint_enc, lemma_varint_len};

verus! {

/// The mathematical shape of a request header.
pub ghost struct RequestHeaderV {
    pub api_key: u16,
    pub api_version: u16,
    pub correlation_id: i32,
    pub client_id: Option<Seq<u8>>,
}

/// The header that opens every request body: which api is addressed,
/// at which version, under which correlation id, and for which client.
pub struct RequestHeader {
    pub api_key: u16,
    pub api_version: u16,
    pub correlation_id: i32,
    pub client_id: Option<Vec<u8>>,
}

impl View for RequestHeader {
    type V = RequestHeaderV;

    open spec fn view(&self) -> RequestHeaderV {
        RequestHeaderV {
            api_key: self.api_key,
            api_version: self.api_version,
            correlation_id: self.correlation_id,
            client_id: match self.client_id {
                None => None,
                Some(ref c) => Some(c@),
            },
        }
    }
}

/// The encoding of a request header: api key, api version, correlation
/// id, optional client id.
pub open spec fn req_header_enc(h: RequestHeaderV) -> Seq<u8> {
    be_enc(h.api_key as nat, 2) + be_enc(h.api_version as nat, 2) + be_enc(
        i32_repr(h.correlation_id),
        4,
    ) + opt_bytes_enc(h.client_id)
}

/// The client id must fit a varint length for the header to be
/// encodable.
pub open spec fn req_header_wf(h: RequestHeaderV) -> bool {
    match h.client_id {
        Some(c) => c.len() <= i64::MAX,
        None => true,
    }
}

/// Decoding a request header from the head of a window.
pub open spec fn req_header_dec(s: Seq<u8>) -> Result<(RequestHeaderV, int), ErrorKind> {
    if s.len() < 2 {
        Err(ErrorKind::UnexpectedEof)
    } else if s.len() < 4 {
        Err(ErrorKind::UnexpectedEof)
    } else if s.len() < 8 {
        Err(ErrorKind::UnexpectedEof)
    } else {
        match opt_bytes_dec(s.skip(8)) {
            Err(e) => Err(e),
            Ok((c, n)) => Ok(
                (
                    RequestHeaderV {
                        api_key: be_val(s.subrange(0, 2)) as u16,
                        api_version: be_val(s.subrange(2, 4)) as u16,
                        correlation_id: i32_from_repr(be_val(s.subrange(4, 8))),
                        client_id: c,
                    },
                    8 + n,
                ),
            ),
        }
    }
}

impl RequestHeader {
    /// A fresh request header: the api key and version of the request,
    /// correlation id zero (the multiplexer assigns the real one), no
    /// client id.
    pub fn new_request(api_key: u16, api_version: u16) -> (r: RequestHeader)
        ensures
            r@ == (RequestHeaderV {
                api_key: api_key,
                api_version: api_version,
                correlation_id: 0i32,
                client_id: None::<Seq<u8>>,
            }),
    {
        RequestHeader { api_key, api_version, correlation_id: 0, client_id: None }
    }

    pub fn set_correlation_id(&mut self, id: i32)
        ensures
            final(self)@ == (RequestHeaderV { correlation_id: id, ..old(self)@ }),
    {
        self.correlation_id = id;
    }

    pub fn correlation_id(&self) -> (r: i32)
        ensures
            r == self@.correlation_id,
    {
        self.correlation_id
    }

    pub fn api_version(&self) -> (r: u16)
        ensures
            r == self@.api_version,
    {
        self.api_version
    }

    pub fn api_key(&self) -> (r: u16)
        ensures
            r == self@.api_key,
    {
        self.api_key
    }

    /// The number of bytes `encode` appends; pure.
    pub fn write_size(&self, version: u16) -> (r: usize)
        requires
            req_header_wf(self@),
            req_header_enc(self@).len() <= usize::MAX,
        ensures
            r == req_header_enc(self@).len(),
    {
        proof {
            lemma_be_enc_len(self@.api_key as nat, 2);
            lemma_be_enc_len(self@.api_version as nat, 2);
            lemma_be_enc_len(i32_repr(self@.correlation_id), 4);
        }
        let tail: usize = match &self.client_id {
            None => 1,
            Some(c) => {
                proof {
                    lemma_varint_len(c@.len() as i64);
                }
                1 + crate::varint::varint_size(c.len() as i64) + c.len()
            },
        };
        8 + tail
    }

    pub fn encode(&self, dest: &mut Vec<u8>, version: u16)
        requires
            req_header_wf(self@),
        ensures
            final(dest)@ == old(dest)@ + req_header_enc(self@),
    {
        encode_u16(dest, self.api_key);
        encode_u16(dest, self.api_version);
        encode_i32(dest, self.correlation_id);
        match &self.client_id {
            None => {
                dest.push(0u8);
            },
            Some(c) => {
                dest.push(1u8);
                encode_varint(dest, c.len() as i64);
                let mut j: usize = 0;
                while j < c.len()
                    invariant
                        j <= c.len(),
                        dest@ =~= old(dest)@ + be_enc(self@.api_key as nat, 2) + be_enc(
                            self@.api_version as nat,
                            2,
                        ) + be_enc(i32_repr(self@.correlation_id), 4) + seq![1u8] + varint_enc(
                            c@.len() as i64,
                        ) + c@.subrange(0, j as int),
                    decreases c.len() - j,
                {
                    dest.push(c[j]);
                    proof {
                        assert(dest@ =~= old(dest)@ + be_enc(self@.api_key as nat, 2) + be_enc(
                            self@.api_version as nat,
                            2,
                        ) + be_enc(i32_repr(self@.correlation_id), 4) + seq![1u8] + varint_enc(
                            c@.len() as i64,
                        ) + c@.subrange(0, j + 1));
                    }
                    j = j + 1;
                }
            },
        }
        proof {
            assert(final(dest)@ =~= old(dest)@ + req_header_enc(self@));
        }
    }

    /// Reads a request header from the window `src[pos..end]`; the
    /// result is exactly what `req_header_dec` says of those bytes.
    pub fn decode(src: &Vec<u8>, pos: usize, end: usize, version: u16) -> (r: Result<
        (RequestHeader, usize),
        ErrorKind,
    >)
        requires
            pos <= end <= src@.len(),
        ensures
            match r {
                Ok((h, p2)) => {
                    &&& pos < p2 <= end
                    &&& req_header_dec(src@.subrange(pos as int, end as int)) == Ok::<
                        (RequestHeaderV, int),
                        ErrorKind,
                    >((h@, p2 - pos))
                },
                Err(e) => req_header_dec(src@.subrange(pos as int, end as int)) == Err::<
                    (RequestHeaderV, int),
                    ErrorKind,
                >(e),
            },
    {
        let ghost w = src@.subrange(pos as int, end as int);
        let (key, p1) = match decode_u16(src, pos, end) {
            Ok(x) => x,
            Err(e) => {
                return Err(e);
            },
        };
        let (ver, p2) = match decode_u16(src, p1, end) {
            Ok(x) => x,
            Err(e) => {
                return Err(e);
            },
        };
        let (corr, p3) = match decode_i32(src, p2, end) {
            Ok(x) => x,
            Err(e) => {
                return Err(e);
            },
        };
        proof {
            assert(w.subrange(0, 2) =~= src@.subrange(pos as int, pos + 2));
            assert(w.subrange(2, 4) =~= src@.subrange(p1 as int, p1 + 2));
            assert(w.subrange(4, 8) =~= src@.subrange(p2 as int, p2 + 4));
            assert(w.skip(8) =~= src@.subrange(p3 as int, end as int));
            crate::fixint::lemma_be_val_bound(w.subrange(0, 2));
            crate::fixint::lemma_be_val_bound(w.subrange(2, 4));
            reveal_with_fuel(pow256, 3);
        }
        let (cid, p4) = match decode_opt_bytes(src, p3, end, version) {
            Ok(x) => x,
            Err(e) => {
                return Err(e);
            },
        };
        let client_id: Option<Vec<u8>> = match cid {
            None => None,
            Some(d) => Some(d.into_vec()),
        };
        Ok(
            (
                RequestHeader {
                    api_key: key,
                    api_version: ver,
                    correlation_id: corr,
                    client_id,
                },
                p4,
            ),
        )
    }
}

/// Decoding inverts encoding for a request header.
pub proof fn lemma_req_header_round_trip(h: RequestHeaderV, rest: Seq<u8>)
    requires
        req_header_wf(h),
    ensures
        req_header_dec(req_header_enc(h) + rest) == Ok::<(RequestHeaderV, int), ErrorKind>(
            (h, req_header_enc(h).len() as int),
        ),
{
    let s = req_header_enc(h) + rest;
    lemma_be_enc_len(h.api_key as nat, 2);
    lemma_be_enc_len(h.api_version as nat, 2);
    lemma_be_enc_len(i32_repr(h.correlation_id), 4);
    assert(s.subrange(0, 2) =~= be_enc(h.api_key as nat, 2));
    assert(s.subrange(2, 4) =~= be_enc(h.api_version as nat, 2));
    assert(s.subrange(4, 8) =~= be_enc(i32_repr(h.correlation_id), 4));
    assert((h.api_key as nat) < pow256(2)) by {
        reveal_with_fuel(pow256, 3);
    };
    assert((h.api_version as nat) < pow256(2)) by {
        reveal_with_fuel(pow256, 3);
    };
    lemma_be_val_enc(h.api_key as nat, 2);
    lemma_be_val_enc(h.api_version as nat, 2);
    lemma_i32_repr_bound(h.correlation_id);
    lemma_be_val_enc(i32_repr(h.correlation_id), 4);
    lemma_i32_repr_round(h.correlation_id);
    assert(s.skip(8) =~= opt_bytes_enc(h.client_id) + rest);
    lemma_opt_bytes_round_trip(h.client_id, rest);
}

/// The encoding of one frame: a 32-bit unsigned length, then the body.
pub open spec fn frame_enc(body: Seq<u8>) -> Seq<u8> {
    be_enc(body.len() as u32 as nat, 4) + body
}

/// Decoding one frame from the head of a window.
pub open spec fn frame_dec(s: Seq<u8>) -> Result<(Seq<u8>, int), ErrorKind> {
    if s.len() < 4 {
        Err(ErrorKind::UnexpectedEof)
    } else {
        let l = be_val(s.subrange(0, 4));
        if s.len() < 4 + l {
            Err(ErrorKind::UnexpectedEof)
        } else {
            Ok((s.subrange(4, 4 + l as int), 4 + l as int))
        }
    }
}

/// Appends one length-prefixed frame holding `body`.
pub fn encode_frame(dest: &mut Vec<u8>, body: &Vec<u8>)
    requires
        body@.len() <= u32::MAX,
    ensures
        final(dest)@ == old(dest)@ + frame_enc(body@),
{
    encode_u32(dest, body.len() as u32);
    let mut j: usize = 0;
    while j < body.len()
        invariant
            j <= body.len(),
            body@.len() <= u32::MAX,
            dest@ =~= old(dest)@ + be_enc(body@.len() as u32 as nat, 4) + body@.subrange(
                0,
                j as int,
            ),
        decreases body.len() - j,
    {
        dest.push(body[j]);
        proof {
            assert(dest@ =~= old(dest)@ + be_enc(body@.len() as u32 as nat, 4) + body@.subrange(
                0,
                j + 1,
            ));
        }
        j = j + 1;
    }
    proof {
        assert(final(dest)@ =~= old(dest)@ + frame_enc(body@));
    }
}

/// Reads one frame from the window `src[pos..end]`, returning its body
/// as an owned buffer; the result is exactly what `frame_dec` says of
/// those bytes.
pub fn decode_frame(src: &Vec<u8>, pos: usize, end: usize) -> (r: Result<
    (Vec<u8>, usize),
    ErrorKind,
>)
    requires
        pos <= end <= src@.len(),
    ensures
        match r {
            Ok((body, p2)) => {
                &&& pos < p2 <= end
                &&& frame_dec(src@.subrange(pos as int, end as int)) == Ok::<
                    (Seq<u8>, int),
                    ErrorKind,
                >((body@, p2 - pos))
            },
            Err(e) => frame_dec(src@.subrange(pos as int, end as int)) == Err::<
                (Seq<u8>, int),
                ErrorKind,
            >(e),
        },
{
    let ghost w = src@.subrange(pos as int, end as int);
    let (l, p1) = match decode_u32(src, pos, end) {
        Ok(x) => x,
        Err(e) => {
            return Err(e);
        },
    };
    proof {
        assert(w.subrange(0, 4) =~= src@.subrange(pos as int, pos + 4));
    }
    if ((end - p1) as u64) < (l as u64) {
        return Err(ErrorKind::UnexpectedEof);
    }
    let take: usize = l as usize;
    let mut body: Vec<u8> = Vec::new();
    let mut j: usize = 0;
    while j < take
        invariant
            j <= take,
            pos <= p1,
            p1 + take <= end <= src@.len(),
            body@ =~= src@.subrange(p1 as int, p1 + j),
        decreases take - j,
    {
        body.push(src[p1 + j]);
        proof {
            assert(body@ =~= src@.subrange(p1 as int, p1 + j + 1));
        }
        j = j + 1;
    }
    proof {
        assert(body@ =~= w.subrange(4, 4 + l as int));
    }
    Ok((body, p1 + take))
}

/// Decoding inverts encoding for a frame.
pub proof fn lemma_frame_round_trip(body: Seq<u8>, rest: Seq<u8>)
    requires
        body.len() <= u32::MAX,
    ensures
        frame_dec(frame_enc(body) + rest) == Ok::<(Seq<u8>, int), ErrorKind>(
            (body, frame_enc(body).len() as int),
        ),
{
    let s = frame_enc(body) + rest;
    lemma_be_enc_len(body.len() as u32 as nat, 4);
    assert(s.subrange(0, 4) =~= be_enc(body.len() as u32 as nat, 4));
    assert((body.len() as u32 as nat) < pow256(4)) by {
        reveal_with_fuel(pow256, 5);
    };
    lemma_be_val_enc(body.len() as u32 as nat, 4);
    assert(s.subrange(4, 4 + body.len() as int) =~= body);
}

/// The encoding of a response body: the correlation id that routes it,
/// then the payload.
pub open spec fn response_enc(correlation_id: i32, payload: Seq<u8>) -> Seq<u8> {
    be_enc(i32_repr(correlation_id), 4) + payload
}

/// Appends a response body: correlation id, then payload bytes.
pub fn encode_response(dest: &mut Vec<u8>, correlation_id: i32, payload: &Vec<u8>)
    ensures
        final(dest)@ == old(dest)@ + response_enc(correlation_id, payload@),
{
    encode_i32(dest, correlation_id);
    let mut j: usize = 0;
    while j < payload.len()
        invariant
            j <= payload.len(),
            dest@ =~= old(dest)@ + be_enc(i32_repr(correlation_id), 4) + payload@.subrange(
                0,
                j as int,
            ),
        decreases payload.len() - j,
    {
        dest.push(payload[j]);
        proof {
            assert(dest@ =~= old(dest)@ + be_enc(i32_repr(correlation_id), 4) + payload@.subrange(
                0,
                j + 1,
            ));
        }
        j = j + 1;
    }
    proof {
        assert(final(dest)@ =~= old(dest)@ + response_enc(correlation_id, payload@));
    }
}

/// Reads the correlation id from the head of a response body without
/// consuming anything: the body, header included, stays whole for the
/// caller's decoder.
pub fn peek_correlation_id(body: &Vec<u8>) -> (r: Result<i32, ErrorKind>)
    ensures
        match r {
            Ok(c) => body@.len() >= 4 && c == i32_from_repr(be_val(body@.subrange(0, 4))),
            Err(e) => e == ErrorKind::UnexpectedEof && body@.len() < 4,
        },
{
    match decode_i32(body, 0, body.len()) {
        Ok((c, _)) => Ok(c),
        Err(e) => Err(e),
    }
}

/// The correlation id of an encoded response is read back exactly.
pub proof fn lemma_peek_response(correlation_id: i32, payload: Seq<u8>)
    ensures
        response_enc(correlation_id, payload).len() >= 4,
        i32_from_repr(be_val(response_enc(correlation_id, payload).subrange(0, 4)))
            == correlation_id,
{
    let s = response_enc(correlation_id, payload);
    lemma_be_enc_len(i32_repr(correlation_id), 4);
    assert(s.subrange(0, 4) =~= be_enc(i32_repr(correlation_id), 4));
    lemma_i32_repr_bound(correlation_id);
    lemma_be_val_enc(i32_repr(correlation_id), 4);
    lemma_i32_repr_round(correlation_id);
}


/// Round trip for a whole framed request: reading the frame yields
/// exactly the header's encoding followed by the payload, and reading
/// the header back out of that body yields the header and leaves the
/// payload.
pub proof fn lemma_request_frame_round_trip(h: RequestHeaderV, payload: Seq<u8>, rest: Seq<u8>)
    requires
        req_header_wf(h),
        req_header_enc(h).len() + payload.len() <= u32::MAX,
    ensures
        ({
            let body = req_header_enc(h) + payload;
            &&& frame_dec(frame_enc(body) + rest) == Ok::<(Seq<u8>, int), ErrorKind>(
                (body, frame_enc(body).len() as int),
            )
            &&& req_header_dec(body) == Ok::<(RequestHeaderV, int), ErrorKind>(
                (h, req_header_enc(h).len() as int),
            )
            &&& body.skip(req_header_enc(h).len() as int) == payload
        }),
{
    let body = req_header_enc(h) + payload;
    lemma_frame_round_trip(body, rest);
    lemma_req_header_round_trip(h, payload);
    assert(body.skip(req_header_enc(h).len() as int) =~= payload);
}

/// Splits a response body into the correlation id that routes it and
/// the payload the caller's decoder reads.
pub fn decode_response(body: &Vec<u8>) -> (r: Result<(i32, Vec<u8>), ErrorKind>)
    ensures
        match r {
            Ok((c, payload)) => {
                &&& body@.len() >= 4
                &&& c == i32_from_repr(be_val(body@.subrange(0, 4)))
                &&& payload@ == body@.skip(4)
            },
            Err(e) => e == ErrorKind::UnexpectedEof && body@.len() < 4,
        },
{
    let (c, p1) = match decode_i32(body, 0, body.len()) {
        Ok(x) => x,
        Err(e) => {
            return Err(e);
        },
    };
    let mut payload: Vec<u8> = Vec::new();
    let mut j: usize = p1;
    while j < body.len()
        invariant
            p1 <= j <= body@.len(),
            p1 == 4,
            payload@ =~= body@.subrange(p1 as int, j as int),
        decreases body@.len() - j,
    {
        payload.push(body[j]);
        proof {
            assert(payload@ =~= body@.subrange(p1 as int, j + 1));
        }
        j = j + 1;
    }
    proof {
        assert(payload@ =~= body@.skip(4));
    }
    Ok((c, payload))
}

impl RequestHeader {
    /// A response body that mirrors this header's correlation id back,
    /// so the requesting side routes it to the right caller.
    pub fn new_response(&self, payload: &Vec<u8>) -> (r: Vec<u8>)
        ensures
            r@ == response_enc(self@.correlation_id, payload@),
    {
        let mut body: Vec<u8> = Vec::new();
        encode_response(&mut body, self.correlation_id, payload);
        proof {
            assert(body@ =~= response_enc(self@.correlation_id, payload@));
        }
        body
    }
}
} // verus!
