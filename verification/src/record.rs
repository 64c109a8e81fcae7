//! Records: the smallest unit of user data, and the pieces they are
//! built from on the wire.
//!
//! A byte string travels as a varint length followed by the raw bytes;
//! an optional byte string as one tag byte (`0x00` absent, `0x01`
//! present) followed, when present, by a byte string.  A record header
//! carries an attributes byte and two varint deltas.  A whole record is
//! the varint length of its body followed by header, optional key,
//! value and a headers-count varint.
//!
//! Every encoder appends exactly the spec-level encoding of its value,
//! every `write_size` equals that encoding's length, and every decoder
//! returns exactly what the spec-level decoder says of its window.

use vstd::prelude::*;

use crate::error::ErrorKind;
use crate::fixint::{be_enc, be_val, i8_repr, i8_from_repr, decode_i8, encode_i8};
use crate::varint::{
    varint_enc, varint_dec, encode_varint, decode_varint, varint_size, lemma_varint_round_trip,
    lemma_varint_len,
};

verus! {

/// The encoding of a byte string: varint length, then the bytes.
pub open spec fn bytes_enc(d: Seq<u8>) -> Seq<u8> {
    varint_enc(d.len() as i64) + d
}

/// Decoding a byte string from the head of a window.  A negative length
/// is `InvalidData`; a window shorter than the announced length is
/// `UnexpectedEof`.
pub open spec fn bytes_dec(s: Seq<u8>) -> Result<(Seq<u8>, int), ErrorKind> {
    match varint_dec(s) {
        Ok((len, n)) => if len < 0 {
            Err(ErrorKind::InvalidData)
        } else if s.len() < n + len {
            Err(ErrorKind::UnexpectedEof)
        } else {
            Ok((s.subrange(n, n + len), n + len))
        },
        Err(e) => Err(e),
    }
}

/// The encoding of an optional byte string: `0x00` for absent, `0x01`
/// followed by the byte string for present.
pub open spec fn opt_bytes_enc(k: Option<Seq<u8>>) -> Seq<u8> {
    match k {
        None => seq![0u8],
        Some(d) => seq![1u8] + bytes_enc(d),
    }
}

/// Decoding an optional byte string.  Any tag byte other than `0x00`
/// and `0x01` is `InvalidData`.
pub open spec fn opt_bytes_dec(s: Seq<u8>) -> Result<(Option<Seq<u8>>, int), ErrorKind> {
    if s.len() < 1 {
        Err(ErrorKind::UnexpectedEof)
    } else if s[0] == 0 {
        Ok((None, 1))
    } else if s[0] == 1 {
        match bytes_dec(s.skip(1)) {
            Ok((d, n)) => Ok((Some(d), 1 + n)),
            Err(e) => Err(e),
        }
    } else {
        Err(ErrorKind::InvalidData)
    }
}

/// The fixed per-record header: an attributes byte reserved for future
/// flags, and the record's timestamp and offset deltas relative to the
/// containing batch's base.
#[derive(Clone, Copy, Debug, PartialEq, Eq, Structural)]
pub struct RecordHeader {
    pub attributes: i8,
    pub timestamp_delta: i64,
    pub offset_delta: i64,
}

/// The encoding of a record header: attributes byte, then the two
/// deltas as varints.
pub open spec fn header_enc(h: RecordHeader) -> Seq<u8> {
    be_enc(i8_repr(h.attributes), 1) + varint_enc(h.timestamp_delta) + varint_enc(h.offset_delta)
}

/// Decoding a record header from the head of a window.
pub open spec fn header_dec(s: Seq<u8>) -> Result<(RecordHeader, int), ErrorKind> {
    if s.len() < 1 {
        Err(ErrorKind::UnexpectedEof)
    } else {
        match varint_dec(s.skip(1)) {
            Ok((ts, n1)) => match varint_dec(s.skip(1 + n1)) {
                Ok((od, n2)) => Ok(
                    (
                        RecordHeader {
                            attributes: i8_from_repr(be_val(s.subrange(0, 1))),
                            timestamp_delta: ts,
                            offset_delta: od,
                        },
                        1 + n1 + n2,
                    ),
                ),
                Err(e) => Err(e),
            },
            Err(e) => Err(e),
        }
    }
}

impl RecordHeader {
    /// A header with every field zero: no flags, no deltas.
    pub fn zero() -> (r: RecordHeader)
        ensures
            r == (RecordHeader { attributes: 0i8, timestamp_delta: 0i64, offset_delta: 0i64 }),
    {
        RecordHeader { attributes: 0, timestamp_delta: 0, offset_delta: 0 }
    }

    pub fn set_offset_delta(&mut self, delta: i64)
        ensures
            *final(self) == (RecordHeader { offset_delta: delta, ..*old(self) }),
    {
        self.offset_delta = delta;
    }

    pub fn offset_delta(&self) -> (r: i64)
        ensures
            r == self.offset_delta,
    {
        self.offset_delta
    }

    /// The number of bytes `encode` appends; pure, version ignored by
    /// the current wire revision.
    pub fn write_size(&self, version: u16) -> (r: usize)
        ensures
            r == header_enc(*self).len(),
    {
        proof {
            lemma_varint_len(self.timestamp_delta);
            lemma_varint_len(self.offset_delta);
            crate::fixint::lemma_be_enc_len(i8_repr(self.attributes), 1);
        }
        1 + varint_size(self.timestamp_delta) + varint_size(self.offset_delta)
    }

    pub fn encode(&self, dest: &mut Vec<u8>, version: u16)
        ensures
            final(dest)@ == old(dest)@ + header_enc(*self),
    {
        encode_i8(dest, self.attributes);
        encode_varint(dest, self.timestamp_delta);
        encode_varint(dest, self.offset_delta);
        proof {
            assert(final(dest)@ =~= old(dest)@ + header_enc(*self));
        }
    }

    /// Reads a header from the window `src[pos..end]`; the result is
    /// exactly what `header_dec` says of those bytes.
    pub fn decode(src: &Vec<u8>, pos: usize, end: usize, version: u16) -> (r: Result<
        (RecordHeader, usize),
        ErrorKind,
    >)
        requires
            pos <= end <= src@.len(),
        ensures
            match r {
                Ok((h, p2)) => {
                    &&& pos < p2 <= end
                    &&& header_dec(src@.subrange(pos as int, end as int)) == Ok::<
                        (RecordHeader, int),
                        ErrorKind,
                    >((h, p2 - pos))
                },
                Err(e) => header_dec(src@.subrange(pos as int, end as int)) == Err::<
                    (RecordHeader, int),
                    ErrorKind,
                >(e),
            },
    {
        let ghost w = src@.subrange(pos as int, end as int);
        let (a, p1) = match decode_i8(src, pos, end) {
            Ok(x) => x,
            Err(e) => {
                return Err(e);
            },
        };
        proof {
            assert(w.subrange(0, 1) =~= src@.subrange(pos as int, pos + 1));
            assert(w.skip(1) =~= src@.subrange(p1 as int, end as int));
        }
        let (ts, p2) = match decode_varint(src, p1, end) {
            Ok(x) => x,
            Err(e) => {
                return Err(e);
            },
        };
        proof {
            assert(w.skip(1 + (p2 - p1)) =~= src@.subrange(p2 as int, end as int));
        }
        let (od, p3) = match decode_varint(src, p2, end) {
            Ok(x) => x,
            Err(e) => {
                return Err(e);
            },
        };
        Ok((RecordHeader { attributes: a, timestamp_delta: ts, offset_delta: od }, p3))
    }
}

/// Decoding inverts encoding for a record header.
pub proof fn lemma_header_round_trip(h: RecordHeader, rest: Seq<u8>)
    ensures
        header_dec(header_enc(h) + rest) == Ok::<(RecordHeader, int), ErrorKind>(
            (h, header_enc(h).len() as int),
        ),
{
    let s = header_enc(h) + rest;
    let e_ts = varint_enc(h.timestamp_delta);
    let e_od = varint_enc(h.offset_delta);
    assert(be_enc(i8_repr(h.attributes), 1) =~= seq![(i8_repr(h.attributes) % 256) as u8]) by {
        reveal_with_fuel(be_enc, 2);
    };
    assert(s.len() >= 1);
    assert(s.skip(1) =~= e_ts + (e_od + rest));
    lemma_varint_round_trip(h.timestamp_delta, e_od + rest);
    assert(s.skip(1 + e_ts.len() as int) =~= e_od + rest);
    lemma_varint_round_trip(h.offset_delta, rest);
    assert(s.subrange(0, 1) =~= be_enc(i8_repr(h.attributes), 1));
    assert(i8_repr(h.attributes) < crate::fixint::pow256(1)) by {
        reveal_with_fuel(crate::fixint::pow256, 2);
    };
    crate::fixint::lemma_be_val_enc(i8_repr(h.attributes), 1);
    crate::fixint::lemma_i8_repr_round(h.attributes);
}

/// The data contents of a record: an owned byte buffer.
#[derive(Debug)]
pub struct RecordData {
    data: Vec<u8>,
}

impl View for RecordData {
    type V = Seq<u8>;

    closed spec fn view(&self) -> Seq<u8> {
        self.data@
    }
}

impl RecordData {
    /// Wraps a byte buffer as record data.
    pub fn from_vec(data: Vec<u8>) -> (r: RecordData)
        ensures
            r@ == data@,
    {
        RecordData { data }
    }

    /// An empty buffer.
    pub fn empty() -> (r: RecordData)
        ensures
            r@ == Seq::<u8>::empty(),
    {
        RecordData { data: Vec::new() }
    }

    pub fn len(&self) -> (r: usize)
        ensures
            r == self@.len(),
    {
        self.data.len()
    }

    /// Borrows the underlying bytes.
    pub fn as_vec(&self) -> (r: &Vec<u8>)
        ensures
            r@ == self@,
    {
        &self.data
    }

    /// Consumes the record data, returning the underlying bytes.
    pub fn into_vec(self) -> (r: Vec<u8>)
        ensures
            r@ == self@,
    {
        self.data
    }

    /// A copy of this buffer holding equal bytes.
    pub fn duplicate(&self) -> (r: RecordData)
        ensures
            r@ == self@,
    {
        let mut data: Vec<u8> = Vec::new();
        let mut j: usize = 0;
        while j < self.data.len()
            invariant
                j <= self.data.len(),
                data@ =~= self.data@.subrange(0, j as int),
            decreases self.data.len() - j,
        {
            data.push(self.data[j]);
            proof {
                assert(data@ =~= self.data@.subrange(0, j + 1));
            }
            j = j + 1;
        }
        proof {
            assert(data@ =~= self.data@);
        }
        RecordData { data }
    }

    /// The number of bytes `encode` appends; pure.
    pub fn write_size(&self, version: u16) -> (r: usize)
        requires
            self@.len() <= i64::MAX,
            bytes_enc(self@).len() <= usize::MAX,
        ensures
            r == bytes_enc(self@).len(),
    {
        proof {
            lemma_varint_len(self@.len() as i64);
        }
        varint_size(self.data.len() as i64) + self.data.len()
    }

    pub fn encode(&self, dest: &mut Vec<u8>, version: u16)
        requires
            self@.len() <= i64::MAX,
        ensures
            final(dest)@ == old(dest)@ + bytes_enc(self@),
    {
        encode_varint(dest, self.data.len() as i64);
        let mut j: usize = 0;
        while j < self.data.len()
            invariant
                j <= self.data.len(),
                dest@ =~= old(dest)@ + varint_enc(self.data@.len() as i64) + self.data@.subrange(
                    0,
                    j as int,
                ),
            decreases self.data.len() - j,
        {
            dest.push(self.data[j]);
            proof {
                assert(dest@ =~= old(dest)@ + varint_enc(self.data@.len() as i64)
                    + self.data@.subrange(0, j + 1));
            }
            j = j + 1;
        }
        proof {
            assert(dest@ =~= old(dest)@ + bytes_enc(self@));
        }
    }

    /// Reads a byte string from the window `src[pos..end]`; the result
    /// is exactly what `bytes_dec` says of those bytes.
    pub fn decode(src: &Vec<u8>, pos: usize, end: usize, version: u16) -> (r: Result<
        (RecordData, usize),
        ErrorKind,
    >)
        requires
            pos <= end <= src@.len(),
        ensures
            match r {
                Ok((d, p2)) => {
                    &&& pos < p2 <= end
                    &&& bytes_dec(src@.subrange(pos as int, end as int)) == Ok::<
                        (Seq<u8>, int),
                        ErrorKind,
                    >((d@, p2 - pos))
                },
                Err(e) => bytes_dec(src@.subrange(pos as int, end as int)) == Err::<
                    (Seq<u8>, int),
                    ErrorKind,
                >(e),
            },
    {
        let ghost w = src@.subrange(pos as int, end as int);
        let (len, p1) = match decode_varint(src, pos, end) {
            Ok(x) => x,
            Err(e) => {
                return Err(e);
            },
        };
        if len < 0 {
            return Err(ErrorKind::InvalidData);
        }
        if ((end - p1) as u64) < (len as u64) {
            return Err(ErrorKind::UnexpectedEof);
        }
        let take: usize = len as usize;
        let mut data: Vec<u8> = Vec::new();
        let mut j: usize = 0;
        while j < take
            invariant
                j <= take,
                pos <= p1,
                p1 + take <= end <= src@.len(),
                data@ =~= src@.subrange(p1 as int, p1 + j),
            decreases take - j,
        {
            data.push(src[p1 + j]);
            proof {
                assert(data@ =~= src@.subrange(p1 as int, p1 + j + 1));
            }
            j = j + 1;
        }
        proof {
            assert(data@ =~= w.subrange(p1 - pos, p1 - pos + len));
        }
        Ok((RecordData { data }, p1 + take))
    }
}

/// Decoding inverts encoding for a byte string.
pub proof fn lemma_bytes_round_trip(d: Seq<u8>, rest: Seq<u8>)
    requires
        d.len() <= i64::MAX,
    ensures
        bytes_dec(bytes_enc(d) + rest) == Ok::<(Seq<u8>, int), ErrorKind>(
            (d, bytes_enc(d).len() as int),
        ),
{
    let s = bytes_enc(d) + rest;
    let e = varint_enc(d.len() as i64);
    assert(s =~= e + (d + rest));
    lemma_varint_round_trip(d.len() as i64, d + rest);
    assert(s.subrange(e.len() as int, e.len() as int + d.len() as int) =~= d);
}

/// Decoding inverts encoding for an optional byte string.
pub proof fn lemma_opt_bytes_round_trip(k: Option<Seq<u8>>, rest: Seq<u8>)
    requires
        match k {
            Some(d) => d.len() <= i64::MAX,
            None => true,
        },
    ensures
        opt_bytes_dec(opt_bytes_enc(k) + rest) == Ok::<(Option<Seq<u8>>, int), ErrorKind>(
            (k, opt_bytes_enc(k).len() as int),
        ),
{
    match k {
        None => {
            let s = opt_bytes_enc(k) + rest;
            assert(s[0] == 0);
        },
        Some(d) => {
            let s = opt_bytes_enc(k) + rest;
            assert(s[0] == 1);
            assert(s.skip(1) =~= bytes_enc(d) + rest);
            lemma_bytes_round_trip(d, rest);
        },
    }
}

} // verus!

use vstd::prelude::*;

verus! {

/// A key for determining where a record is routed, or the stated
/// absence of one.
pub struct RecordKey {
    inner: Option<RecordData>,
}

impl View for RecordKey {
    type V = Option<Seq<u8>>;

    closed spec fn view(&self) -> Option<Seq<u8>> {
        match self.inner {
            None => None,
            Some(ref d) => Some(d@),
        }
    }
}

impl RecordKey {
    /// The stated absence of a key.
    pub fn null() -> (r: RecordKey)
        ensures
            r@ is None,
    {
        RecordKey { inner: None }
    }

    /// A key holding the given bytes.
    pub fn from_vec(data: Vec<u8>) -> (r: RecordKey)
        ensures
            r@ == Some(data@),
    {
        RecordKey { inner: Some(RecordData::from_vec(data)) }
    }

    /// The key's data, if any.
    fn into_option(self) -> (r: Option<RecordData>)
        ensures
            match r {
                None => self@ is None,
                Some(d) => self@ == Some(d@),
            },
    {
        self.inner
    }
}

/// The mathematical shape of a record: header, optional key bytes,
/// value bytes and a headers count.
pub ghost struct RecordV {
    pub preamble: RecordHeader,
    pub key: Option<Seq<u8>>,
    pub value: Seq<u8>,
    pub headers: i64,
}

/// The smallest unit of user data: an optional key, a value and the
/// deltas that place it inside its batch.
pub struct Record {
    pub preamble: RecordHeader,
    pub key: Option<RecordData>,
    pub value: RecordData,
    pub headers: i64,
}

impl View for Record {
    type V = RecordV;

    open spec fn view(&self) -> RecordV {
        RecordV {
            preamble: self.preamble,
            key: match self.key {
                None => None,
                Some(ref d) => Some(d@),
            },
            value: self.value@,
            headers: self.headers,
        }
    }
}

/// The body of a record: the four fields without the outer length.
pub open spec fn record_body_enc(r: RecordV) -> Seq<u8> {
    header_enc(r.preamble) + opt_bytes_enc(r.key) + bytes_enc(r.value) + varint_enc(r.headers)
}

/// The full encoding of a record: the varint length of the body, then
/// the body.  The outer length lets a reader skip a malformed record
/// without losing the rest of the stream.
pub open spec fn record_enc(r: RecordV) -> Seq<u8> {
    varint_enc(record_body_enc(r).len() as i64) + record_body_enc(r)
}

/// The sizes under which a record is encodable at all: each byte field
/// and the whole body must be expressible as a varint length.
pub open spec fn record_wf(r: RecordV) -> bool {
    &&& r.value.len() <= i64::MAX
    &&& match r.key {
        Some(d) => d.len() <= i64::MAX,
        None => true,
    }
    &&& record_body_enc(r).len() <= i64::MAX
}

/// Decoding a record from the head of a window: the outer length must
/// be non-negative and covered by the window, then the four fields are
/// read in order, each failure propagating as it is.
pub open spec fn record_dec(s: Seq<u8>) -> Result<(RecordV, int), ErrorKind> {
    match varint_dec(s) {
        Err(e) => Err(e),
        Ok((ilen, n0)) => if ilen < 0 {
            Err(ErrorKind::InvalidData)
        } else if s.len() < n0 + ilen {
            Err(ErrorKind::UnexpectedEof)
        } else {
            match header_dec(s.skip(n0)) {
                Err(e) => Err(e),
                Ok((h, n1)) => match opt_bytes_dec(s.skip(n0 + n1)) {
                    Err(e) => Err(e),
                    Ok((k, n2)) => match bytes_dec(s.skip(n0 + n1 + n2)) {
                        Err(e) => Err(e),
                        Ok((v, n3)) => match varint_dec(s.skip(n0 + n1 + n2 + n3)) {
                            Err(e) => Err(e),
                            Ok((hd, n4)) => Ok(
                                (
                                    RecordV {
                                        preamble: h,
                                        key: k,
                                        value: v,
                                        headers: hd,
                                    },
                                    n0 + n1 + n2 + n3 + n4,
                                ),
                            ),
                        },
                    },
                },
            }
        },
    }
}

impl Record {
    /// A record holding the given value, no key and zero deltas.
    pub fn new(value: RecordData) -> (r: Record)
        ensures
            r@ == (RecordV {
                preamble: RecordHeader { attributes: 0i8, timestamp_delta: 0i64, offset_delta: 0i64 },
                key: None::<Seq<u8>>,
                value: value@,
                headers: 0i64,
            }),
    {
        Record { preamble: RecordHeader::zero(), key: None, value, headers: 0 }
    }

    /// A record holding the given key (possibly the stated absence of
    /// one) and value, with zero deltas.
    pub fn new_key_value(key: RecordKey, value: RecordData) -> (r: Record)
        ensures
            r@ == (RecordV {
                preamble: RecordHeader { attributes: 0i8, timestamp_delta: 0i64, offset_delta: 0i64 },
                key: key@,
                value: value@,
                headers: 0i64,
            }),
    {
        Record { preamble: RecordHeader::zero(), key: key.into_option(), value, headers: 0 }
    }

    pub fn get_offset_delta(&self) -> (r: i64)
        ensures
            r == self.preamble.offset_delta,
    {
        self.preamble.offset_delta
    }

    /// Shifts the record's offset delta by a new relative base offset.
    pub fn add_base_offset(&mut self, relative_base_offset: i64)
        requires
            i64::MIN <= old(self).preamble.offset_delta + relative_base_offset <= i64::MAX,
        ensures
            final(self).preamble.offset_delta == old(self).preamble.offset_delta
                + relative_base_offset,
            final(self).preamble.attributes == old(self).preamble.attributes,
            final(self).preamble.timestamp_delta == old(self).preamble.timestamp_delta,
            final(self)@.key == old(self)@.key,
            final(self)@.value == old(self)@.value,
            final(self).headers == old(self).headers,
    {
        self.preamble.offset_delta = self.preamble.offset_delta + relative_base_offset;
    }

    /// A reference to the inner value.
    pub fn value(&self) -> (r: &RecordData)
        ensures
            r@ == self@.value,
    {
        &self.value
    }

    /// A reference to the inner key, if it exists.
    pub fn key(&self) -> (r: Option<&RecordData>)
        ensures
            match r {
                None => self@.key is None,
                Some(d) => self@.key == Some(d@),
            },
    {
        self.key.as_ref()
    }

    /// Consumes this record, returning the inner value.
    pub fn into_value(self) -> (r: RecordData)
        ensures
            r@ == self@.value,
    {
        self.value
    }

    /// Consumes this record, returning the inner key if it exists.
    pub fn into_key(self) -> (r: Option<RecordData>)
        ensures
            match r {
                None => self@.key is None,
                Some(d) => self@.key == Some(d@),
            },
    {
        self.key
    }

    /// The number of bytes `encode` appends; pure.
    pub fn write_size(&self, version: u16) -> (r: usize)
        requires
            record_wf(self@),
            record_enc(self@).len() <= usize::MAX,
        ensures
            r == record_enc(self@).len(),
    {
        proof {
            lemma_varint_len(record_body_enc(self@).len() as i64);
            lemma_varint_len(self@.headers);
        }
        let inner: usize = self.inner_size(version);
        varint_size(inner as i64) + inner
    }

    /// The size of the record body alone: header, optional key, value
    /// and headers count.
    fn inner_size(&self, version: u16) -> (r: usize)
        requires
            record_wf(self@),
            record_body_enc(self@).len() <= usize::MAX,
        ensures
            r == record_body_enc(self@).len(),
    {
        proof {
            lemma_varint_len(self@.headers);
            lemma_varint_len(self@.value.len() as i64);
            match self@.key {
                Some(d) => lemma_varint_len(d.len() as i64),
                None => (),
            }
        }
        let key_size: usize = match &self.key {
            None => 1,
            Some(d) => 1 + d.write_size(version),
        };
        self.preamble.write_size(version) + key_size + self.value.write_size(version)
            + varint_size(self.headers)
    }

    /// The record's encoding as a fresh buffer.
    pub fn as_bytes(&self, version: u16) -> (r: Vec<u8>)
        requires
            record_wf(self@),
        ensures
            r@ == record_enc(self@),
    {
        let mut out: Vec<u8> = Vec::new();
        self.encode(&mut out, version);
        proof {
            assert(out@ =~= record_enc(self@));
        }
        out
    }

    pub fn encode(&self, dest: &mut Vec<u8>, version: u16)
        requires
            record_wf(self@),
        ensures
            final(dest)@ == old(dest)@ + record_enc(self@),
    {
        let mut body: Vec<u8> = Vec::new();
        self.preamble.encode(&mut body, version);
        match &self.key {
            None => {
                body.push(0u8);
                proof {
                    assert(body@ =~= header_enc(self@.preamble) + opt_bytes_enc(self@.key));
                }
            },
            Some(d) => {
                body.push(1u8);
                d.encode(&mut body, version);
                proof {
                    assert(body@ =~= header_enc(self@.preamble) + opt_bytes_enc(self@.key));
                }
            },
        }
        self.value.encode(&mut body, version);
        encode_varint(&mut body, self.headers);
        proof {
            assert(body@ =~= record_body_enc(self@));
        }
        encode_varint(dest, body.len() as i64);
        dest.append(&mut body);
        proof {
            assert(final(dest)@ =~= old(dest)@ + record_enc(self@));
        }
    }

    /// Reads a record from the window `src[pos..end]`; the result is
    /// exactly what `record_dec` says of those bytes.
    pub fn decode(src: &Vec<u8>, pos: usize, end: usize, version: u16) -> (r: Result<
        (Record, usize),
        ErrorKind,
    >)
        requires
            pos <= end <= src@.len(),
        ensures
            match r {
                Ok((rec, p2)) => {
                    &&& pos < p2 <= end
                    &&& record_dec(src@.subrange(pos as int, end as int)) == Ok::<
                        (RecordV, int),
                        ErrorKind,
                    >((rec@, p2 - pos))
                },
                Err(e) => record_dec(src@.subrange(pos as int, end as int)) == Err::<
                    (RecordV, int),
                    ErrorKind,
                >(e),
            },
    {
        let ghost w = src@.subrange(pos as int, end as int);
        let (ilen, p1) = match decode_varint(src, pos, end) {
            Ok(x) => x,
            Err(e) => {
                return Err(e);
            },
        };
        if ilen < 0 {
            return Err(ErrorKind::InvalidData);
        }
        if ((end - p1) as u64) < (ilen as u64) {
            return Err(ErrorKind::UnexpectedEof);
        }
        proof {
            assert(w.skip(p1 - pos) =~= src@.subrange(p1 as int, end as int));
        }
        let (h, p2) = match RecordHeader::decode(src, p1, end, version) {
            Ok(x) => x,
            Err(e) => {
                return Err(e);
            },
        };
        proof {
            assert(w.skip(p2 - pos) =~= src@.subrange(p2 as int, end as int));
        }
        let (k, p3) = match decode_opt_bytes(src, p2, end, version) {
            Ok(x) => x,
            Err(e) => {
                return Err(e);
            },
        };
        proof {
            assert(w.skip(p3 - pos) =~= src@.subrange(p3 as int, end as int));
        }
        let (v, p4) = match RecordData::decode(src, p3, end, version) {
            Ok(x) => x,
            Err(e) => {
                return Err(e);
            },
        };
        proof {
            assert(w.skip(p4 - pos) =~= src@.subrange(p4 as int, end as int));
        }
        let (hd, p5) = match decode_varint(src, p4, end) {
            Ok(x) => x,
            Err(e) => {
                return Err(e);
            },
        };
        Ok((Record { preamble: h, key: k, value: v, headers: hd }, p5))
    }
}

/// Reads an optional byte string from the window `src[pos..end]`; the
/// result is exactly what `opt_bytes_dec` says of those bytes.
pub fn decode_opt_bytes(src: &Vec<u8>, pos: usize, end: usize, version: u16) -> (r: Result<
    (Option<RecordData>, usize),
    ErrorKind,
>)
    requires
        pos <= end <= src@.len(),
    ensures
        match r {
            Ok((k, p2)) => {
                &&& pos < p2 <= end
                &&& opt_bytes_dec(src@.subrange(pos as int, end as int)) == Ok::<
                    (Option<Seq<u8>>, int),
                    ErrorKind,
                >((
                    match k {
                        None => None,
                        Some(ref d) => Some(d@),
                    },
                    p2 - pos,
                ))
            },
            Err(e) => opt_bytes_dec(src@.subrange(pos as int, end as int)) == Err::<
                (Option<Seq<u8>>, int),
                ErrorKind,
            >(e),
        },
{
    let ghost w = src@.subrange(pos as int, end as int);
    if end - pos < 1 {
        return Err(ErrorKind::UnexpectedEof);
    }
    let tag = src[pos];
    proof {
        assert(w[0] == tag);
    }
    if tag == 0 {
        Ok((None, pos + 1))
    } else if tag == 1 {
        proof {
            assert(w.skip(1) =~= src@.subrange(pos + 1, end as int));
        }
        match RecordData::decode(src, pos + 1, end, version) {
            Ok((d, p2)) => Ok((Some(d), p2)),
            Err(e) => Err(e),
        }
    } else {
        Err(ErrorKind::InvalidData)
    }
}

/// Decoding inverts encoding for a whole record.
#[verifier::rlimit(60)]
pub proof fn lemma_record_round_trip(r: RecordV, rest: Seq<u8>)
    requires
        record_wf(r),
    ensures
        record_dec(record_enc(r) + rest) == Ok::<(RecordV, int), ErrorKind>(
            (r, record_enc(r).len() as int),
        ),
{
    let body = record_body_enc(r);
    let e_h = header_enc(r.preamble);
    let e_k = opt_bytes_enc(r.key);
    let e_v = bytes_enc(r.value);
    let e_hd = varint_enc(r.headers);
    let s = record_enc(r) + rest;
    let e_len = varint_enc(body.len() as i64);
    assert(s =~= e_len + (body + rest));
    lemma_varint_round_trip(body.len() as i64, body + rest);
    let n0 = e_len.len() as int;
    assert(s.len() - n0 >= body.len());
    assert(s.skip(n0) =~= e_h + (e_k + (e_v + (e_hd + rest))));
    lemma_header_round_trip(r.preamble, e_k + (e_v + (e_hd + rest)));
    let n1 = e_h.len() as int;
    assert(s.skip(n0 + n1) =~= e_k + (e_v + (e_hd + rest)));
    lemma_opt_bytes_round_trip(r.key, e_v + (e_hd + rest));
    let n2 = e_k.len() as int;
    assert(s.skip(n0 + n1 + n2) =~= e_v + (e_hd + rest));
    lemma_bytes_round_trip(r.value, e_hd + rest);
    let n3 = e_v.len() as int;
    assert(s.skip(n0 + n1 + n2 + n3) =~= e_hd + rest);
    lemma_varint_round_trip(r.headers, rest);
}


/// The legacy empty-key compatibility law.  Historical records wrote
/// the key as an always-present empty byte string: a single `0x00`
/// length.  That byte is identical to the present absent-optional
/// tag, so the two encodings are one and the same sequence, and a
/// legacy record decodes as a record with an absent key and its value
/// preserved (see `lemma_record_round_trip` with `key: None`).
pub proof fn lemma_legacy_empty_key_encoding()
    ensures
        bytes_enc(Seq::<u8>::empty()) == opt_bytes_enc(None::<Seq<u8>>),
{
    reveal_with_fuel(crate::varint::varint_enc_u, 2);
    assert(crate::varint::zigzag(0) == 0);
    assert(varint_enc(0) =~= seq![0u8]);
    assert(bytes_enc(Seq::<u8>::empty()) =~= opt_bytes_enc(None::<Seq<u8>>));
}
} // verus!
