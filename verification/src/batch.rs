//! Batches: ordered groups of records sharing a base offset.
//!
//! On the wire a batch is its base offset (eight big-endian bytes),
//! the length of the rest of the batch (four big-endian bytes), a
//! record count (four big-endian bytes) and the records in order.  The
//! batch codec is self-delimiting: a successful decode consumes exactly
//! the declared length, and an input truncated anywhere inside a batch
//! fails with `UnexpectedEof` — the property the record-set layer's
//! truncation tolerance rests on.

use vstd::prelude::*;

use crate::error::ErrorKind;
use crate::fixint::{
    be_enc, be_val, i32_repr, i32_from_repr, i64_repr, i64_from_repr, encode_i32, encode_i64,
    decode_i32, decode_i64, lemma_be_enc_len, lemma_be_val_enc, lemma_i32_repr_bound,
    lemma_i32_repr_round, lemma_i64_repr_bound, lemma_i64_repr_round,
};
use crate::record::{Record, RecordV, record_enc, record_dec, record_wf, lemma_record_round_trip};

verus! {

/// The mathematical shape of a batch: a base offset and the records.
pub ghost struct BatchV {
    pub base_offset: i64,
    pub records: Seq<RecordV>,
}

/// An ordered group of records sharing a base offset.  Appending a
/// record stamps it with its position as offset delta.
pub struct Batch {
    pub base_offset: i64,
    records: Vec<Record>,
}

impl View for Batch {
    type V = BatchV;

    closed spec fn view(&self) -> BatchV {
        BatchV {
            base_offset: self.base_offset,
            records: self.records@.map_values(|r: Record| r@),
        }
    }
}

/// The concatenation of the encodings of a sequence of records.
pub open spec fn records_enc(rs: Seq<RecordV>) -> Seq<u8>
    decreases rs.len(),
{
    if rs.len() == 0 {
        Seq::empty()
    } else {
        record_enc(rs[0]) + records_enc(rs.skip(1))
    }
}

/// Decoding exactly `count` records from the head of a window.
pub open spec fn records_dec(w: Seq<u8>, count: nat) -> Result<(Seq<RecordV>, int), ErrorKind>
    decreases count,
{
    if count == 0 {
        Ok((Seq::empty(), 0))
    } else {
        match record_dec(w) {
            Err(e) => Err(e),
            Ok((r, n)) => match records_dec(w.skip(n), (count - 1) as nat) {
                Err(e) => Err(e),
                Ok((rs, m)) => Ok((seq![r] + rs, n + m)),
            },
        }
    }
}

/// The encoding of a batch: base offset, length of the remainder,
/// record count, records.
pub open spec fn batch_enc(b: BatchV) -> Seq<u8> {
    be_enc(i64_repr(b.base_offset), 8) + be_enc(
        i32_repr((4 + records_enc(b.records).len()) as i32),
        4,
    ) + be_enc(i32_repr(b.records.len() as i32), 4) + records_enc(b.records)
}

/// The sizes under which a batch is encodable: every record encodable,
/// the count expressible in 32 bits, and the declared length too.
pub open spec fn batch_wf(b: BatchV) -> bool {
    &&& forall|i: int| 0 <= i < b.records.len() ==> record_wf(#[trigger] b.records[i])
    &&& b.records.len() <= i32::MAX
    &&& 4 + records_enc(b.records).len() <= i32::MAX
}

/// Decoding a batch from the head of a window.  The records are read
/// strictly inside the declared length; a declared length that the
/// window does not cover, or that its own records run past, fails with
/// `UnexpectedEof`.
pub open spec fn batch_dec(s: Seq<u8>) -> Result<(BatchV, int), ErrorKind> {
    if s.len() < 8 {
        Err(ErrorKind::UnexpectedEof)
    } else if s.len() < 12 {
        Err(ErrorKind::UnexpectedEof)
    } else {
        let blen = i32_from_repr(be_val(s.subrange(8, 12)));
        if blen < 0 {
            Err(ErrorKind::InvalidData)
        } else if s.len() < 12 + blen {
            Err(ErrorKind::UnexpectedEof)
        } else if blen < 4 {
            Err(ErrorKind::UnexpectedEof)
        } else {
            let count = i32_from_repr(be_val(s.subrange(12, 16)));
            if count < 0 {
                Err(ErrorKind::InvalidData)
            } else {
                match records_dec(s.subrange(16, 12 + blen), count as nat) {
                    Err(e) => Err(e),
                    Ok((rs, m)) => if m == blen - 4 {
                        Ok(
                            (
                                BatchV {
                                    base_offset: i64_from_repr(be_val(s.subrange(0, 8))),
                                    records: rs,
                                },
                                12 + blen,
                            ),
                        )
                    } else {
                        Err(ErrorKind::InvalidData)
                    },
                }
            }
        }
    }
}

/// The offset delta the batch's last record carries; zero for an empty
/// batch.
pub open spec fn last_offset_delta_of(b: BatchV) -> i64 {
    if b.records.len() == 0 {
        0i64
    } else {
        b.records.last().preamble.offset_delta
    }
}

impl Batch {
    /// An empty batch at base offset zero.
    pub fn new() -> (r: Batch)
        ensures
            r@.base_offset == 0i64,
            r@.records == Seq::<RecordV>::empty(),
    {
        let b = Batch { base_offset: 0, records: Vec::new() };
        proof {
            assert(b@.records =~= Seq::<RecordV>::empty());
        }
        b
    }

    /// Appends a record, stamping it with its position in the batch as
    /// offset delta.
    pub fn add_record(&mut self, record: Record)
        requires
            old(self)@.records.len() < i64::MAX,
        ensures
            final(self)@.base_offset == old(self)@.base_offset,
            final(self)@.records == old(self)@.records.push(
                RecordV {
                    preamble: crate::record::RecordHeader {
                        offset_delta: old(self)@.records.len() as i64,
                        ..record@.preamble
                    },
                    ..record@
                },
            ),
    {
        let mut record = record;
        let delta = self.records.len() as i64;
        record.preamble.set_offset_delta(delta);
        self.records.push(record);
        proof {
            assert(final(self)@.records =~= old(self)@.records.push(
                RecordV {
                    preamble: crate::record::RecordHeader {
                        offset_delta: old(self).records@.len() as i64,
                        ..record@.preamble
                    },
                    ..record@
                },
            ));
        }
    }

    /// The batch's base offset.
    pub fn base_offset(&self) -> (r: i64)
        ensures
            r == self@.base_offset,
    {
        self.base_offset
    }

    /// The records of the batch, in order.
    pub fn records(&self) -> (r: &Vec<Record>)
        ensures
            r@.map_values(|rec: Record| rec@) == self@.records,
    {
        &self.records
    }

    /// How many records the batch holds.
    pub fn records_len(&self) -> (r: usize)
        ensures
            r == self@.records.len(),
    {
        self.records.len()
    }

    /// The offset of the batch's last record: the base offset plus the
    /// last record's offset delta.
    pub fn computed_last_offset(&self) -> (r: i64)
        requires
            i64::MIN <= self@.base_offset + last_offset_delta_of(self@) <= i64::MAX,
        ensures
            r == self@.base_offset + last_offset_delta_of(self@),
    {
        if self.records.len() == 0 {
            self.base_offset
        } else {
            proof {
                assert(self@.records.last() == self.records@.last()@);
            }
            self.base_offset + self.records[self.records.len() - 1].preamble.offset_delta
        }
    }
}


/// Concatenated record encodings split over a push.
pub proof fn lemma_records_enc_push(rs: Seq<RecordV>, r: RecordV)
    ensures
        records_enc(rs.push(r)) == records_enc(rs) + record_enc(r),
    decreases rs.len(),
{
    if rs.len() == 0 {
        reveal_with_fuel(records_enc, 3);
        assert(rs.push(r)[0] == r);
        assert(rs.push(r).skip(1) =~= Seq::<RecordV>::empty());
        assert(records_enc(rs.push(r)) =~= records_enc(rs) + record_enc(r));
    } else {
        assert(rs.push(r)[0] == rs[0]);
        assert(rs.push(r).skip(1) =~= rs.skip(1).push(r));
        lemma_records_enc_push(rs.skip(1), r);
        assert(record_enc(rs[0]) + (records_enc(rs.skip(1)) + record_enc(r)) =~= (record_enc(
            rs[0],
        ) + records_enc(rs.skip(1))) + record_enc(r));
    }
}

/// Concatenated record encodings split at any index.
pub proof fn lemma_records_enc_split(rs: Seq<RecordV>, j: int)
    requires
        0 <= j <= rs.len(),
    ensures
        records_enc(rs) == records_enc(rs.take(j)) + records_enc(rs.skip(j)),
    decreases j,
{
    if j == 0 {
        assert(rs.take(0) =~= Seq::<RecordV>::empty());
        assert(rs.skip(0) =~= rs);
        assert(records_enc(rs) =~= records_enc(rs.take(0)) + records_enc(rs.skip(0)));
    } else {
        lemma_records_enc_split(rs, j - 1);
        assert(rs.take(j) =~= rs.take(j - 1).push(rs[j - 1]));
        lemma_records_enc_push(rs.take(j - 1), rs[j - 1]);
        assert(rs.skip(j - 1)[0] == rs[j - 1]);
        assert(rs.skip(j - 1).skip(1) =~= rs.skip(j));
        assert(records_enc(rs.skip(j - 1)) == record_enc(rs[j - 1]) + records_enc(rs.skip(j)));
        assert((records_enc(rs.take(j - 1)) + record_enc(rs[j - 1])) + records_enc(rs.skip(j))
            =~= records_enc(rs.take(j - 1)) + (record_enc(rs[j - 1]) + records_enc(rs.skip(j))));
    }
}

/// Composing an already-decoded prefix with the rest of a record run.
pub open spec fn rd_compose(
    r: Result<(Seq<RecordV>, int), ErrorKind>,
    pre: Seq<RecordV>,
    n: int,
) -> Result<(Seq<RecordV>, int), ErrorKind> {
    match r {
        Ok((rs, m)) => Ok((pre + rs, n + m)),
        Err(e) => Err(e),
    }
}

impl Batch {
    /// The number of bytes `encode` appends; pure.
    pub fn write_size(&self, version: u16) -> (r: usize)
        requires
            batch_wf(self@),
        ensures
            r == batch_enc(self@).len(),
    {
        proof {
            lemma_be_enc_len(i64_repr(self@.base_offset), 8);
            lemma_be_enc_len(i32_repr((4 + records_enc(self@.records).len()) as i32), 4);
            lemma_be_enc_len(i32_repr(self@.records.len() as i32), 4);
        }
        let mut acc: usize = 0;
        let mut j: usize = 0;
        while j < self.records.len()
            invariant
                batch_wf(self@),
                j <= self.records.len(),
                self@.records.len() == self.records.len(),
                acc == records_enc(self@.records.take(j as int)).len(),
            decreases self.records.len() - j,
        {
            proof {
                assert(self.records@[j as int]@ == self@.records[j as int]);
                lemma_records_enc_split(self@.records, j as int);
                lemma_records_enc_split(self@.records, j + 1);
                assert(self@.records.take(j + 1) =~= self@.records.take(j as int).push(
                    self@.records[j as int],
                ));
                lemma_records_enc_push(self@.records.take(j as int), self@.records[j as int]);
            }
            acc = acc + self.records[j].write_size(version);
            j = j + 1;
        }
        proof {
            assert(self@.records.take(self.records.len() as int) =~= self@.records);
        }
        16 + acc
    }

    pub fn encode(&self, dest: &mut Vec<u8>, version: u16)
        requires
            batch_wf(self@),
        ensures
            final(dest)@ == old(dest)@ + batch_enc(self@),
    {
        let mut body: Vec<u8> = Vec::new();
        let mut j: usize = 0;
        while j < self.records.len()
            invariant
                batch_wf(self@),
                j <= self.records.len(),
                self@.records.len() == self.records.len(),
                body@ == records_enc(self@.records.take(j as int)),
            decreases self.records.len() - j,
        {
            proof {
                assert(self.records@[j as int]@ == self@.records[j as int]);
                assert(self@.records.take(j + 1) =~= self@.records.take(j as int).push(
                    self@.records[j as int],
                ));
                lemma_records_enc_push(self@.records.take(j as int), self@.records[j as int]);
            }
            self.records[j].encode(&mut body, version);
            j = j + 1;
        }
        proof {
            assert(self@.records.take(self.records.len() as int) =~= self@.records);
            lemma_records_enc_split(self@.records, self.records.len() as int);
        }
        encode_i64(dest, self.base_offset);
        let blen: i32 = (4 + body.len()) as i32;
        encode_i32(dest, blen);
        encode_i32(dest, self.records.len() as i32);
        dest.append(&mut body);
        proof {
            assert(i32_repr(blen) == 4 + records_enc(self@.records).len());
            assert(i32_repr(self.records.len() as i32) == self@.records.len());
            assert(final(dest)@ =~= old(dest)@ + batch_enc(self@));
        }
    }

    /// Reads a batch from the window `src[pos..end]`; the result is
    /// exactly what `batch_dec` says of those bytes.
    #[verifier::rlimit(60)]
    pub fn decode(src: &Vec<u8>, pos: usize, end: usize, version: u16) -> (r: Result<
        (Batch, usize),
        ErrorKind,
    >)
        requires
            pos <= end <= src@.len(),
        ensures
            match r {
                Ok((b, p2)) => {
                    &&& pos < p2 <= end
                    &&& batch_dec(src@.subrange(pos as int, end as int)) == Ok::<
                        (BatchV, int),
                        ErrorKind,
                    >((b@, p2 - pos))
                },
                Err(e) => batch_dec(src@.subrange(pos as int, end as int)) == Err::<
                    (BatchV, int),
                    ErrorKind,
                >(e),
            },
    {
        let ghost w = src@.subrange(pos as int, end as int);
        let (base, p1) = match decode_i64(src, pos, end) {
            Ok(x) => x,
            Err(e) => {
                return Err(e);
            },
        };
        proof {
            assert(w.subrange(0, 8) =~= src@.subrange(pos as int, pos + 8));
        }
        let (blen, p2) = match decode_i32(src, p1, end) {
            Ok(x) => x,
            Err(e) => {
                return Err(e);
            },
        };
        proof {
            assert(w.subrange(8, 12) =~= src@.subrange(p1 as int, p1 + 4));
        }
        if blen < 0 {
            return Err(ErrorKind::InvalidData);
        }
        if ((end - p2) as u64) < (blen as u64) {
            return Err(ErrorKind::UnexpectedEof);
        }
        if blen < 4 {
            return Err(ErrorKind::UnexpectedEof);
        }
        let bend: usize = p2 + (blen as usize);
        let (count, p3) = match decode_i32(src, p2, bend) {
            Ok(x) => x,
            Err(e) => {
                // Unreachable: the declared length covers at least the
                // four count bytes, as checked just above.
                proof {
                    assert(false);
                }
                return Err(e);
            },
        };
        proof {
            assert(w.subrange(12, 16) =~= src@.subrange(p2 as int, p2 + 4));
        }
        if count < 0 {
            return Err(ErrorKind::InvalidData);
        }
        let ghost w_recs = w.subrange(16, 12 + blen as int);
        let mut recs: Vec<Record> = Vec::new();
        let mut i: u32 = 0;
        let mut pcur: usize = p3;
        proof {
            assert(w_recs =~= src@.subrange(p3 as int, bend as int));
        }
        while i < (count as u32)
            invariant
                pos <= p3 <= pcur <= bend <= end <= src@.len(),
                i <= count as u32,
                count >= 0,
                w_recs == w.subrange(16, 12 + blen as int),
                w == src@.subrange(pos as int, end as int),
                12 + blen as int <= w.len(),
                blen >= 4,
                bend == p3 + blen - 4,
                p3 == pos + 16,
                blen == i32_from_repr(be_val(w.subrange(8, 12))),
                count == i32_from_repr(be_val(w.subrange(12, 16))),
                base == i64_from_repr(be_val(w.subrange(0, 8))),
                recs@.map_values(|rec: Record| rec@).len() == i as nat,
                rd_compose(
                    records_dec(src@.subrange(pcur as int, bend as int), (count - i) as nat),
                    recs@.map_values(|rec: Record| rec@),
                    pcur - p3,
                ) == records_dec(w_recs, count as nat),
            decreases count - i,
        {
            let (rec, pnext) = match Record::decode(src, pcur, bend, version) {
                Ok(x) => x,
                Err(e) => {
                    proof {
                        assert(records_dec(
                            src@.subrange(pcur as int, bend as int),
                            (count - i) as nat,
                        ) == Err::<(Seq<RecordV>, int), ErrorKind>(e));
                        assert(records_dec(w_recs, count as nat) == Err::<
                            (Seq<RecordV>, int),
                            ErrorKind,
                        >(e));
                    }
                    return Err(e);
                },
            };
            proof {
                assert(src@.subrange(pcur as int, bend as int).skip(pnext - pcur) =~= src@.subrange(
                    pnext as int,
                    bend as int,
                ));
                lemma_rd_compose_step(
                    src@.subrange(pcur as int, bend as int),
                    (count - i) as nat,
                    rec@,
                    pnext - pcur,
                    recs@.map_values(|r2: Record| r2@),
                    pcur - p3,
                );
                assert(recs@.push(rec).map_values(|r2: Record| r2@) =~= recs@.map_values(
                    |r2: Record| r2@,
                ).push(rec@));
            }
            recs.push(rec);
            pcur = pnext;
            i = i + 1;
        }
        if pcur != bend {
            return Err(ErrorKind::InvalidData);
        }
        proof {
            assert(records_dec(src@.subrange(pcur as int, bend as int), 0nat) == Ok::<
                (Seq<RecordV>, int),
                ErrorKind,
            >((Seq::empty(), 0)));
            assert(recs@.map_values(|rec: Record| rec@) + Seq::<RecordV>::empty() =~= recs@
                .map_values(|rec: Record| rec@));
        }
        let b = Batch { base_offset: base, records: recs };
        Ok((b, bend))
    }
}

/// One decoding step folded into the composition: consuming the first
/// record of a run moves it from the run to the already-decoded prefix.
proof fn lemma_rd_compose_step(
    w1: Seq<u8>,
    c: nat,
    r: RecordV,
    n: int,
    pre: Seq<RecordV>,
    k: int,
)
    requires
        c > 0,
        record_dec(w1) == Ok::<(RecordV, int), ErrorKind>((r, n)),
    ensures
        rd_compose(records_dec(w1, c), pre, k) == rd_compose(
            records_dec(w1.skip(n), (c - 1) as nat),
            pre.push(r),
            k + n,
        ),
{
    match records_dec(w1.skip(n), (c - 1) as nat) {
        Ok((rs, m)) => {
            assert(pre + (seq![r] + rs) =~= pre.push(r) + rs);
        },
        Err(_) => {},
    }
}

/// Decoding inverts encoding for a run of records.
pub proof fn lemma_records_round_trip(rs: Seq<RecordV>, rest: Seq<u8>)
    requires
        forall|i: int| 0 <= i < rs.len() ==> record_wf(#[trigger] rs[i]),
    ensures
        records_dec(records_enc(rs) + rest, rs.len()) == Ok::<(Seq<RecordV>, int), ErrorKind>(
            (rs, records_enc(rs).len() as int),
        ),
    decreases rs.len(),
{
    if rs.len() == 0 {
        assert(rs =~= Seq::<RecordV>::empty());
    } else {
        let s = records_enc(rs) + rest;
        assert(s =~= record_enc(rs[0]) + (records_enc(rs.skip(1)) + rest));
        lemma_record_round_trip(rs[0], records_enc(rs.skip(1)) + rest);
        let n = record_enc(rs[0]).len() as int;
        assert(s.skip(n) =~= records_enc(rs.skip(1)) + rest);
        assert(forall|i: int|
            0 <= i < rs.skip(1).len() ==> record_wf(#[trigger] rs.skip(1)[i]));
        lemma_records_round_trip(rs.skip(1), rest);
        assert(seq![rs[0]] + rs.skip(1) =~= rs);
    }
}

/// Decoding inverts encoding for a batch.
pub proof fn lemma_batch_round_trip(b: BatchV, rest: Seq<u8>)
    requires
        batch_wf(b),
    ensures
        batch_dec(batch_enc(b) + rest) == Ok::<(BatchV, int), ErrorKind>(
            (b, batch_enc(b).len() as int),
        ),
{
    let er = records_enc(b.records);
    let blen: i32 = (4 + er.len()) as i32;
    let count: i32 = b.records.len() as i32;
    let e0 = be_enc(i64_repr(b.base_offset), 8);
    let e1 = be_enc(i32_repr(blen), 4);
    let e2 = be_enc(i32_repr(count), 4);
    let s = batch_enc(b) + rest;
    lemma_be_enc_len(i64_repr(b.base_offset), 8);
    lemma_be_enc_len(i32_repr(blen), 4);
    lemma_be_enc_len(i32_repr(count), 4);
    assert(s.subrange(0, 8) =~= e0);
    assert(s.subrange(8, 12) =~= e1);
    assert(s.subrange(12, 16) =~= e2);
    lemma_i64_repr_bound(b.base_offset);
    lemma_i32_repr_bound(blen);
    lemma_i32_repr_bound(count);
    lemma_be_val_enc(i64_repr(b.base_offset), 8);
    lemma_be_val_enc(i32_repr(blen), 4);
    lemma_be_val_enc(i32_repr(count), 4);
    lemma_i64_repr_round(b.base_offset);
    lemma_i32_repr_round(blen);
    lemma_i32_repr_round(count);
    assert(s.subrange(16, 12 + blen as int) =~= er + Seq::<u8>::empty());
    lemma_records_round_trip(b.records, Seq::empty());
    assert(batch_enc(b).len() == 12 + blen as int);
}

/// A strict, non-empty prefix of a batch encoding never decodes: the
/// declared length runs past the window, so the decoder reports
/// `UnexpectedEof`.
pub proof fn lemma_batch_dec_prefix_fails(b: BatchV, n: int)
    requires
        batch_wf(b),
        0 <= n < batch_enc(b).len(),
    ensures
        batch_dec(batch_enc(b).take(n)) == Err::<(BatchV, int), ErrorKind>(
            ErrorKind::UnexpectedEof,
        ),
{
    let e = batch_enc(b);
    let p = e.take(n);
    let er = records_enc(b.records);
    let blen: i32 = (4 + er.len()) as i32;
    lemma_be_enc_len(i64_repr(b.base_offset), 8);
    lemma_be_enc_len(i32_repr(blen), 4);
    lemma_be_enc_len(i32_repr(b.records.len() as i32), 4);
    assert(e.len() == 12 + blen as int);
    if n < 12 {
    } else {
        assert(p.subrange(8, 12) =~= be_enc(i32_repr(blen), 4));
        lemma_i32_repr_bound(blen);
        lemma_be_val_enc(i32_repr(blen), 4);
        lemma_i32_repr_round(blen);
        assert(p.len() < 12 + blen as int);
    }
}

} // verus!
