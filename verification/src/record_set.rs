//! Record sets: a length-prefixed concatenation of batches, as stored
//! on disk and sent on the wire.
//!
//! Decoding is truncation tolerant: after the four-byte length is
//! covered, batches are read one after another, and on the first batch
//! that fails to decode — a truncated trailing batch being the usual
//! reason — the decoder stops and returns the batches accumulated so
//! far as a success.  Storage may be cut at any byte; the readable
//! prefix is never lost because the tail is broken.

use vstd::prelude::*;

use crate::error::ErrorKind;
use crate::fixint::{
    be_enc, be_val, i32_repr, i32_from_repr, encode_i32, decode_i32, lemma_be_enc_len,
    lemma_be_val_enc, lemma_i32_repr_bound, lemma_i32_repr_round,
};
use crate::batch::{
    Batch, BatchV, batch_enc, batch_dec, batch_wf, last_offset_delta_of, lemma_batch_round_trip,
    lemma_batch_dec_prefix_fails,
};

verus! {

/// The concatenation of the encodings of a sequence of batches.
pub open spec fn batches_enc(bs: Seq<BatchV>) -> Seq<u8>
    decreases bs.len(),
{
    if bs.len() == 0 {
        Seq::empty()
    } else {
        batch_enc(bs[0]) + batches_enc(bs.skip(1))
    }
}

/// The encoding of a record set: the total length of the batches as a
/// 32-bit signed big-endian value, then the batches.
pub open spec fn record_set_enc(bs: Seq<BatchV>) -> Seq<u8> {
    be_enc(i32_repr(batches_enc(bs).len() as i32), 4) + batches_enc(bs)
}

/// The sizes under which a record set is encodable: every batch
/// encodable and the total expressible in 32 bits.
pub open spec fn record_set_wf(bs: Seq<BatchV>) -> bool {
    &&& forall|i: int| 0 <= i < bs.len() ==> batch_wf(#[trigger] bs[i])
    &&& batches_enc(bs).len() <= i32::MAX
}

/// Tolerant batch reading: batches are decoded one after another and
/// the first failure ends the run with what was accumulated so far.
pub open spec fn batches_dec_tolerant(w: Seq<u8>) -> Seq<BatchV>
    decreases w.len(),
{
    if w.len() == 0 {
        Seq::empty()
    } else {
        match batch_dec(w) {
            Err(_) => Seq::empty(),
            Ok((b, n)) => if 0 < n <= w.len() {
                seq![b] + batches_dec_tolerant(w.skip(n))
            } else {
                seq![b]
            },
        }
    }
}

/// Decoding a record set from the head of a window.  Only the length
/// prefix itself is a hard failure: a missing prefix, a negative
/// length, or a window shorter than the declared length.  Inside the
/// declared region every batch-level failure ends the run quietly.
pub open spec fn record_set_dec(s: Seq<u8>) -> Result<(Seq<BatchV>, int), ErrorKind> {
    if s.len() < 4 {
        Err(ErrorKind::UnexpectedEof)
    } else {
        let l = i32_from_repr(be_val(s.subrange(0, 4)));
        if l < 0 {
            Err(ErrorKind::UnexpectedEof)
        } else if s.len() < 4 + l {
            Err(ErrorKind::UnexpectedEof)
        } else {
            Ok((batches_dec_tolerant(s.subrange(4, 4 + l)), 4 + l))
        }
    }
}

/// The number of records over all batches of a set.
pub open spec fn total_records_of(bs: Seq<BatchV>) -> int
    decreases bs.len(),
{
    if bs.len() == 0 {
        0
    } else {
        bs[0].records.len() + total_records_of(bs.skip(1))
    }
}

/// Sets of batches, written consecutively with their total length as
/// prefix.
pub struct RecordSet {
    pub batches: Vec<Batch>,
}

impl View for RecordSet {
    type V = Seq<BatchV>;

    open spec fn view(&self) -> Seq<BatchV> {
        self.batches@.map_values(|b: Batch| b@)
    }
}

/// Concatenated batch encodings split over a push.
pub proof fn lemma_batches_enc_push(bs: Seq<BatchV>, b: BatchV)
    ensures
        batches_enc(bs.push(b)) == batches_enc(bs) + batch_enc(b),
    decreases bs.len(),
{
    if bs.len() == 0 {
        reveal_with_fuel(batches_enc, 3);
        assert(bs.push(b)[0] == b);
        assert(bs.push(b).skip(1) =~= Seq::<BatchV>::empty());
        assert(batches_enc(bs.push(b)) =~= batches_enc(bs) + batch_enc(b));
    } else {
        assert(bs.push(b)[0] == bs[0]);
        assert(bs.push(b).skip(1) =~= bs.skip(1).push(b));
        lemma_batches_enc_push(bs.skip(1), b);
        assert(batch_enc(bs[0]) + (batches_enc(bs.skip(1)) + batch_enc(b)) =~= (batch_enc(bs[0])
            + batches_enc(bs.skip(1))) + batch_enc(b));
    }
}

/// Concatenated batch encodings split at any index.
pub proof fn lemma_batches_enc_split(bs: Seq<BatchV>, j: int)
    requires
        0 <= j <= bs.len(),
    ensures
        batches_enc(bs) == batches_enc(bs.take(j)) + batches_enc(bs.skip(j)),
    decreases j,
{
    if j == 0 {
        assert(bs.take(0) =~= Seq::<BatchV>::empty());
        assert(bs.skip(0) =~= bs);
        assert(batches_enc(bs) =~= batches_enc(bs.take(0)) + batches_enc(bs.skip(0)));
    } else {
        lemma_batches_enc_split(bs, j - 1);
        assert(bs.take(j) =~= bs.take(j - 1).push(bs[j - 1]));
        lemma_batches_enc_push(bs.take(j - 1), bs[j - 1]);
        assert(bs.skip(j - 1)[0] == bs[j - 1]);
        assert(bs.skip(j - 1).skip(1) =~= bs.skip(j));
        assert(batches_enc(bs.skip(j - 1)) == batch_enc(bs[j - 1]) + batches_enc(bs.skip(j)));
        assert((batches_enc(bs.take(j - 1)) + batch_enc(bs[j - 1])) + batches_enc(bs.skip(j))
            =~= batches_enc(bs.take(j - 1)) + (batch_enc(bs[j - 1]) + batches_enc(bs.skip(j))));
    }
}

/// Reading a window that begins with well-formed batch encodings
/// yields those batches, then whatever the tail yields.
pub proof fn lemma_batches_dec_tolerant_enc(bs: Seq<BatchV>, p: Seq<u8>)
    requires
        forall|i: int| 0 <= i < bs.len() ==> batch_wf(#[trigger] bs[i]),
    ensures
        batches_dec_tolerant(batches_enc(bs) + p) == bs + batches_dec_tolerant(p),
    decreases bs.len(),
{
    if bs.len() == 0 {
        assert(batches_enc(bs) + p =~= p);
        assert(bs + batches_dec_tolerant(p) =~= batches_dec_tolerant(p));
    } else {
        let w = batches_enc(bs) + p;
        assert(w =~= batch_enc(bs[0]) + (batches_enc(bs.skip(1)) + p));
        lemma_batch_round_trip(bs[0], batches_enc(bs.skip(1)) + p);
        let n = batch_enc(bs[0]).len() as int;
        assert(n >= 16) by {
            lemma_be_enc_len(crate::fixint::i64_repr(bs[0].base_offset), 8);
            lemma_be_enc_len(i32_repr((4 + crate::batch::records_enc(bs[0].records).len()) as i32), 4);
            lemma_be_enc_len(i32_repr(bs[0].records.len() as i32), 4);
        };
        assert(w.skip(n) =~= batches_enc(bs.skip(1)) + p);
        assert(forall|i: int| 0 <= i < bs.skip(1).len() ==> batch_wf(#[trigger] bs.skip(1)[i]));
        lemma_batches_dec_tolerant_enc(bs.skip(1), p);
        assert(seq![bs[0]] + (bs.skip(1) + batches_dec_tolerant(p)) =~= bs + batches_dec_tolerant(
            p,
        ));
    }
}

/// Decoding inverts encoding for a whole record set.
pub proof fn lemma_record_set_round_trip(bs: Seq<BatchV>, rest: Seq<u8>)
    requires
        record_set_wf(bs),
    ensures
        record_set_dec(record_set_enc(bs) + rest) == Ok::<(Seq<BatchV>, int), ErrorKind>(
            (bs, record_set_enc(bs).len() as int),
        ),
{
    let eb = batches_enc(bs);
    let l: i32 = eb.len() as i32;
    let s = record_set_enc(bs) + rest;
    lemma_be_enc_len(i32_repr(l), 4);
    assert(s.subrange(0, 4) =~= be_enc(i32_repr(l), 4));
    lemma_i32_repr_bound(l);
    lemma_be_val_enc(i32_repr(l), 4);
    lemma_i32_repr_round(l);
    assert(s.subrange(4, 4 + l as int) =~= eb + Seq::<u8>::empty());
    lemma_batches_dec_tolerant_enc(bs, Seq::empty());
    assert(batches_dec_tolerant(Seq::<u8>::empty()) =~= Seq::<BatchV>::empty());
    assert(bs + Seq::<BatchV>::empty() =~= bs);
}

/// Truncation tolerance: cut any number of bytes out of the last
/// batch of an encoded record set, correct the length prefix, and the
/// decoder still succeeds with exactly the earlier batches.
pub proof fn lemma_record_set_truncation(bs: Seq<BatchV>, cut: int)
    requires
        record_set_wf(bs),
        bs.len() >= 1,
        0 < cut < batch_enc(bs.last()).len(),
    ensures
        ({
            let full = batches_enc(bs);
            let tlen = full.len() - cut;
            record_set_dec(be_enc(i32_repr(tlen as i32), 4) + full.take(tlen)) == Ok::<
                (Seq<BatchV>, int),
                ErrorKind,
            >((bs.drop_last(), 4 + tlen))
        }),
{
    let full = batches_enc(bs);
    let tlen = full.len() - cut;
    let front = bs.drop_last();
    let last = bs.last();
    assert(bs =~= front.push(last));
    lemma_batches_enc_push(front, last);
    assert(full == batches_enc(front) + batch_enc(last));
    let k = batch_enc(last).len() - cut;
    assert(full.take(tlen) =~= batches_enc(front) + batch_enc(last).take(k));
    assert(forall|i: int| 0 <= i < front.len() ==> batch_wf(#[trigger] front[i])) by {
        assert(forall|i: int| 0 <= i < front.len() ==> front[i] == bs[i]);
    };
    assert(batch_wf(last));
    lemma_batch_dec_prefix_fails(last, k);
    assert(batches_dec_tolerant(batch_enc(last).take(k)) =~= Seq::<BatchV>::empty());
    lemma_batches_dec_tolerant_enc(front, batch_enc(last).take(k));
    assert(front + Seq::<BatchV>::empty() =~= front);
    let s = be_enc(i32_repr(tlen as i32), 4) + full.take(tlen);
    lemma_be_enc_len(i32_repr(tlen as i32), 4);
    assert(s.subrange(0, 4) =~= be_enc(i32_repr(tlen as i32), 4));
    lemma_i32_repr_bound(tlen as i32);
    lemma_be_val_enc(i32_repr(tlen as i32), 4);
    lemma_i32_repr_round(tlen as i32);
    assert(s.subrange(4, 4 + tlen) =~= full.take(tlen));
}

impl RecordSet {
    /// An empty record set.
    pub fn new() -> (r: RecordSet)
        ensures
            r@ == Seq::<BatchV>::empty(),
    {
        let r = RecordSet { batches: Vec::new() };
        proof {
            assert(r@ =~= Seq::<BatchV>::empty());
        }
        r
    }

    /// Appends a batch, returning the grown set.
    pub fn add(self, batch: Batch) -> (r: RecordSet)
        ensures
            r@ == self@.push(batch@),
    {
        let mut s = self;
        s.batches.push(batch);
        proof {
            assert(s@ =~= self@.push(s.batches@.last()@));
        }
        s
    }

    /// The next offset to be fetched: the computed last offset of the
    /// final batch, if any.
    pub fn last_offset(&self) -> (r: Option<i64>)
        requires
            self@.len() > 0 ==> i64::MIN <= self@.last().base_offset + last_offset_delta_of(
                self@.last(),
            ) <= i64::MAX,
        ensures
            match r {
                None => self@.len() == 0,
                Some(o) => self@.len() > 0 && o == self@.last().base_offset
                    + last_offset_delta_of(self@.last()),
            },
    {
        if self.batches.len() == 0 {
            None
        } else {
            proof {
                assert(self@.last() == self.batches@.last()@);
            }
            Some(self.batches[self.batches.len() - 1].computed_last_offset())
        }
    }

    /// The number of records over all batches.
    pub fn total_records(&self) -> (r: usize)
        requires
            total_records_of(self@) <= usize::MAX,
        ensures
            r == total_records_of(self@),
    {
        let mut acc: usize = 0;
        let mut j: usize = 0;
        proof {
            lemma_total_records_split(self@, 0);
            lemma_total_records_nonneg(self@.skip(0));
            assert(self@.take(0) =~= Seq::<BatchV>::empty());
        }
        while j < self.batches.len()
            invariant
                j <= self.batches.len(),
                self@.len() == self.batches.len(),
                total_records_of(self@) <= usize::MAX,
                acc == total_records_of(self@.take(j as int)),
                acc + total_records_of(self@.skip(j as int)) == total_records_of(self@),
                total_records_of(self@.skip(j as int)) >= 0,
            decreases self.batches.len() - j,
        {
            proof {
                assert(self.batches@[j as int]@ == self@[j as int]);
                assert(self@.skip(j as int)[0] == self@[j as int]);
                assert(self@.skip(j as int).skip(1) =~= self@.skip(j + 1));
                lemma_total_records_nonneg(self@.skip(j + 1));
                assert(self@.take(j + 1) =~= self@.take(j as int).push(self@[j as int]));
                lemma_total_records_push(self@.take(j as int), self@[j as int]);
            }
            acc = acc + self.batches[j].records_len();
            j = j + 1;
        }
        proof {
            assert(self@.take(self.batches.len() as int) =~= self@);
        }
        acc
    }

    /// The base offset of the first batch, or -1 for an empty set.
    pub fn base_offset(&self) -> (r: i64)
        ensures
            r == if self@.len() == 0 {
                -1i64
            } else {
                self@[0].base_offset
            },
    {
        if self.batches.len() == 0 {
            -1
        } else {
            proof {
                assert(self@[0] == self.batches@[0]@);
            }
            self.batches[0].base_offset()
        }
    }
}

/// Record totals are never negative.
pub proof fn lemma_total_records_nonneg(bs: Seq<BatchV>)
    ensures
        total_records_of(bs) >= 0,
    decreases bs.len(),
{
    if bs.len() > 0 {
        lemma_total_records_nonneg(bs.skip(1));
    }
}

/// Record totals split over a push.
pub proof fn lemma_total_records_push(bs: Seq<BatchV>, b: BatchV)
    ensures
        total_records_of(bs.push(b)) == total_records_of(bs) + b.records.len(),
    decreases bs.len(),
{
    if bs.len() == 0 {
        reveal_with_fuel(total_records_of, 3);
        assert(bs.push(b)[0] == b);
        assert(bs.push(b).skip(1) =~= Seq::<BatchV>::empty());
    } else {
        assert(bs.push(b)[0] == bs[0]);
        assert(bs.push(b).skip(1) =~= bs.skip(1).push(b));
        lemma_total_records_push(bs.skip(1), b);
    }
}

/// Record totals split at any index.
pub proof fn lemma_total_records_split(bs: Seq<BatchV>, j: int)
    requires
        0 <= j <= bs.len(),
    ensures
        total_records_of(bs) == total_records_of(bs.take(j)) + total_records_of(bs.skip(j)),
    decreases j,
{
    if j == 0 {
        assert(bs.take(0) =~= Seq::<BatchV>::empty());
        assert(bs.skip(0) =~= bs);
    } else {
        lemma_total_records_split(bs, j - 1);
        assert(bs.take(j) =~= bs.take(j - 1).push(bs[j - 1]));
        lemma_total_records_push(bs.take(j - 1), bs[j - 1]);
        assert(bs.skip(j - 1)[0] == bs[j - 1]);
        assert(bs.skip(j - 1).skip(1) =~= bs.skip(j));
    }
}


impl RecordSet {
    /// The number of bytes `encode` appends; pure.
    pub fn write_size(&self, version: u16) -> (r: usize)
        requires
            record_set_wf(self@),
        ensures
            r == record_set_enc(self@).len(),
    {
        proof {
            lemma_be_enc_len(i32_repr(batches_enc(self@).len() as i32), 4);
        }
        let mut acc: usize = 0;
        let mut j: usize = 0;
        while j < self.batches.len()
            invariant
                record_set_wf(self@),
                j <= self.batches.len(),
                self@.len() == self.batches.len(),
                acc == batches_enc(self@.take(j as int)).len(),
            decreases self.batches.len() - j,
        {
            proof {
                assert(self.batches@[j as int]@ == self@[j as int]);
                lemma_batches_enc_split(self@, j as int);
                lemma_batches_enc_split(self@, j + 1);
                assert(self@.take(j + 1) =~= self@.take(j as int).push(self@[j as int]));
                lemma_batches_enc_push(self@.take(j as int), self@[j as int]);
            }
            acc = acc + self.batches[j].write_size(version);
            j = j + 1;
        }
        proof {
            assert(self@.take(self.batches.len() as int) =~= self@);
        }
        4 + acc
    }

    /// Appends the record set's encoding: each batch into a scratch
    /// buffer, the total length as a 32-bit prefix, then the bytes.
    pub fn encode(&self, dest: &mut Vec<u8>, version: u16)
        requires
            record_set_wf(self@),
        ensures
            final(dest)@ == old(dest)@ + record_set_enc(self@),
    {
        let mut body: Vec<u8> = Vec::new();
        let mut j: usize = 0;
        while j < self.batches.len()
            invariant
                record_set_wf(self@),
                j <= self.batches.len(),
                self@.len() == self.batches.len(),
                body@ == batches_enc(self@.take(j as int)),
            decreases self.batches.len() - j,
        {
            proof {
                assert(self.batches@[j as int]@ == self@[j as int]);
                assert(self@.take(j + 1) =~= self@.take(j as int).push(self@[j as int]));
                lemma_batches_enc_push(self@.take(j as int), self@[j as int]);
            }
            self.batches[j].encode(&mut body, version);
            j = j + 1;
        }
        proof {
            assert(self@.take(self.batches.len() as int) =~= self@);
            lemma_batches_enc_split(self@, self.batches.len() as int);
        }
        let length: i32 = body.len() as i32;
        encode_i32(dest, length);
        dest.append(&mut body);
        proof {
            assert(i32_repr(length) == batches_enc(self@).len());
            assert(final(dest)@ =~= old(dest)@ + record_set_enc(self@));
        }
    }

    /// Reads a record set from the window `src[pos..end]`; the result
    /// is exactly what `record_set_dec` says of those bytes.  Batches
    /// are decoded until the declared region is exhausted or a batch
    /// fails; a failure ends the run quietly with the batches read so
    /// far.
    pub fn decode(src: &Vec<u8>, pos: usize, end: usize, version: u16) -> (r: Result<
        (RecordSet, usize),
        ErrorKind,
    >)
        requires
            pos <= end <= src@.len(),
        ensures
            match r {
                Ok((rs, p2)) => {
                    &&& pos < p2 <= end
                    &&& record_set_dec(src@.subrange(pos as int, end as int)) == Ok::<
                        (Seq<BatchV>, int),
                        ErrorKind,
                    >((rs@, p2 - pos))
                },
                Err(e) => record_set_dec(src@.subrange(pos as int, end as int)) == Err::<
                    (Seq<BatchV>, int),
                    ErrorKind,
                >(e),
            },
    {
        let ghost w = src@.subrange(pos as int, end as int);
        let (l, p1) = match decode_i32(src, pos, end) {
            Ok(x) => x,
            Err(e) => {
                return Err(e);
            },
        };
        proof {
            assert(w.subrange(0, 4) =~= src@.subrange(pos as int, pos + 4));
        }
        if l < 0 {
            return Err(ErrorKind::UnexpectedEof);
        }
        if ((end - p1) as u64) < (l as u64) {
            return Err(ErrorKind::UnexpectedEof);
        }
        let send: usize = p1 + (l as usize);
        let ghost wl = w.subrange(4, 4 + l as int);
        proof {
            assert(wl =~= src@.subrange(p1 as int, send as int));
        }
        let mut out: Vec<Batch> = Vec::new();
        let mut pcur: usize = p1;
        loop
            invariant
                pos <= p1 <= pcur <= send <= end <= src@.len(),
                wl == w.subrange(4, 4 + l as int),
                w == src@.subrange(pos as int, end as int),
                l >= 0,
                p1 == pos + 4,
                send == p1 + l,
                l == i32_from_repr(be_val(w.subrange(0, 4))),
                4 + l as int <= w.len(),
                out@.map_values(|b: Batch| b@) + batches_dec_tolerant(
                    src@.subrange(pcur as int, send as int),
                ) == batches_dec_tolerant(wl),
            ensures
                out@.map_values(|b: Batch| b@) == batches_dec_tolerant(wl),
            decreases send - pcur,
        {
            if pcur >= send {
                proof {
                    assert(src@.subrange(pcur as int, send as int) =~= Seq::<u8>::empty());
                    assert(out@.map_values(|b: Batch| b@) + Seq::<BatchV>::empty() =~= out@
                        .map_values(|b: Batch| b@));
                }
                break ;
            }
            let (b, pnext) = match Batch::decode(src, pcur, send, version) {
                Ok(x) => x,
                Err(_) => {
                    proof {
                        assert(batches_dec_tolerant(src@.subrange(pcur as int, send as int))
                            =~= Seq::<BatchV>::empty());
                        assert(out@.map_values(|b2: Batch| b2@) + Seq::<BatchV>::empty() =~= out@
                            .map_values(|b2: Batch| b2@));
                    }
                    break ;
                },
            };
            proof {
                assert(src@.subrange(pcur as int, send as int).skip(pnext - pcur) =~= src@.subrange(
                    pnext as int,
                    send as int,
                ));
                assert(out@.push(b).map_values(|b2: Batch| b2@) =~= out@.map_values(
                    |b2: Batch| b2@,
                ).push(b@));
                assert((out@.map_values(|b2: Batch| b2@) + (seq![b@] + batches_dec_tolerant(
                    src@.subrange(pnext as int, send as int),
                ))) =~= (out@.map_values(|b2: Batch| b2@).push(b@) + batches_dec_tolerant(
                    src@.subrange(pnext as int, send as int),
                )));
            }
            out.push(b);
            pcur = pnext;
        }
        let rs = RecordSet { batches: out };
        Ok((rs, send))
    }
}

/// A record set that lives in a file rather than in memory: what the
/// in-memory side knows of it is its position and length.  The bytes
/// themselves are spliced in by the storage layer; only an empty
/// slice can be rendered into a plain buffer, as a bare zero length.
pub struct FileRecordSet {
    position: u64,
    len: u64,
}

impl FileRecordSet {
    /// A slice of a stored record-set file.
    pub fn from_slice(position: u64, len: u64) -> (r: FileRecordSet)
        ensures
            r.spec_position() == position,
            r.len_bytes() == len,
    {
        FileRecordSet { position, len }
    }

    /// Where the slice starts in its file.
    pub closed spec fn spec_position(&self) -> u64 {
        self.position
    }

    /// How many bytes the slice covers.
    pub closed spec fn len_bytes(&self) -> u64 {
        self.len
    }

    /// Where the slice starts in its file.
    #[verifier::when_used_as_spec(spec_position)]
    pub fn position(&self) -> (r: u64)
        ensures
            r == self.spec_position(),
    {
        self.position
    }

    /// How many bytes the slice covers.
    pub fn len(&self) -> (r: u64)
        ensures
            r == self.len_bytes(),
    {
        self.len
    }

    /// The number of bytes `encode` would append: the slice plus its
    /// four-byte length prefix.
    pub fn write_size(&self, version: u16) -> (r: u64)
        requires
            self.len_bytes() + 4 <= u64::MAX,
        ensures
            r == self.len_bytes() + 4,
    {
        self.len + 4
    }

    /// Renders the slice into a plain buffer.  Only an empty slice
    /// can be: its encoding is a bare zero length.  A non-empty slice
    /// is the storage layer's to splice, and asking for it here is
    /// `InvalidInput` — if and only if the length is non-zero.
    pub fn encode(&self, dest: &mut Vec<u8>, version: u16) -> (r: Result<(), ErrorKind>)
        ensures
            match r {
                Ok(()) => self.len_bytes() == 0 && final(dest)@ == old(dest)@ + be_enc(0, 4),
                Err(e) => e == ErrorKind::InvalidInput && self.len_bytes() != 0
                    && final(dest)@ == old(dest)@,
            },
    {
        if self.len == 0 {
            crate::fixint::encode_u32(dest, 0);
            Ok(())
        } else {
            proof {
                assert(final(dest)@ =~= old(dest)@);
            }
            Err(ErrorKind::InvalidInput)
        }
    }
}
} // verus!
