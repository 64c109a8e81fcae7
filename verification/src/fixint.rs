//! Fixed-width integers in big-endian byte order: the lowest layer of the
//! wire codec.
//!
//! The encoding of an unsigned value is `be_enc`, a sequence of bytes with
//! the most significant byte first; `be_val` reads such a sequence back.
//! Signed values travel as their two's-complement unsigned image, given by
//! the `*_repr` functions.  Every decoder states exactly when it fails:
//! `UnexpectedEof` if and only if the window holds fewer bytes than the
//! width asks for.

use vstd::prelude::*;

use crate::error::ErrorKind;

verus! {

/// 256 to the power `n`: the number of values a big-endian sequence of
/// `n` bytes can hold.
pub open spec fn pow256(n: nat) -> nat
    decreases n,
{
    if n == 0 {
        1
    } else {
        256 * pow256((n - 1) as nat)
    }
}

/// The big-endian encoding of `v` in exactly `n` bytes (most significant
/// byte first; `v` is reduced modulo `pow256(n)`).
pub open spec fn be_enc(v: nat, n: nat) -> Seq<u8>
    decreases n,
{
    if n == 0 {
        Seq::empty()
    } else {
        be_enc(v / 256, (n - 1) as nat) + seq![(v % 256) as u8]
    }
}

/// The value a big-endian byte sequence stands for.
pub open spec fn be_val(s: Seq<u8>) -> nat
    decreases s.len(),
{
    if s.len() == 0 {
        0nat
    } else {
        (be_val(s.drop_last()) * 256 + s.last()) as nat
    }
}

pub proof fn lemma_be_enc_len(v: nat, n: nat)
    ensures
        be_enc(v, n).len() == n,
    decreases n,
{
    if n > 0 {
        lemma_be_enc_len(v / 256, (n - 1) as nat);
    }
}

/// Appending one byte multiplies the value by 256 and adds the byte.
pub proof fn lemma_be_val_snoc(s: Seq<u8>, b: u8)
    ensures
        be_val(s.push(b)) == be_val(s) * 256 + b,
{
    assert(s.push(b).drop_last() =~= s);
    assert(s.push(b).last() == b);
}

/// Decoding inverts encoding for every value that fits the width.
pub proof fn lemma_be_val_enc(v: nat, n: nat)
    requires
        v < pow256(n),
    ensures
        be_val(be_enc(v, n)) == v,
    decreases n,
{
    if n > 0 {
        lemma_be_enc_len(v / 256, (n - 1) as nat);
        assert(v / 256 < pow256((n - 1) as nat)) by {
            assert(v < 256 * pow256((n - 1) as nat));
        };
        lemma_be_val_enc(v / 256, (n - 1) as nat);
        assert(be_enc(v, n) == be_enc(v / 256, (n - 1) as nat).push((v % 256) as u8));
        lemma_be_val_snoc(be_enc(v / 256, (n - 1) as nat), (v % 256) as u8);
        assert((v / 256) * 256 + v % 256 == v) by {
            vstd::arithmetic::div_mod::lemma_fundamental_div_mod(v as int, 256);
        };
    }
}

/// A sequence of `n` bytes never stands for a value of `pow256(n)` or more.
pub proof fn lemma_be_val_bound(s: Seq<u8>)
    ensures
        be_val(s) < pow256(s.len()),
    decreases s.len(),
{
    if s.len() > 0 {
        lemma_be_val_bound(s.drop_last());
        assert(be_val(s.drop_last()) * 256 <= (pow256((s.len() - 1) as nat) - 1) * 256);
    }
}

/// The two's-complement unsigned image of a signed 8-bit value.
pub open spec fn i8_repr(v: i8) -> nat {
    if v >= 0 {
        v as nat
    } else {
        (v + 0x100) as nat
    }
}

/// The two's-complement unsigned image of a signed 16-bit value.
pub open spec fn i16_repr(v: i16) -> nat {
    if v >= 0 {
        v as nat
    } else {
        (v + 0x1_0000) as nat
    }
}

/// The two's-complement unsigned image of a signed 32-bit value.
pub open spec fn i32_repr(v: i32) -> nat {
    if v >= 0 {
        v as nat
    } else {
        (v + 0x1_0000_0000) as nat
    }
}

/// The two's-complement unsigned image of a signed 64-bit value.
pub open spec fn i64_repr(v: i64) -> nat {
    if v >= 0 {
        v as nat
    } else {
        (v + 0x1_0000_0000_0000_0000) as nat
    }
}

/// The signed 8-bit value an unsigned image below `pow256(1)` stands for.
pub open spec fn i8_from_repr(n: nat) -> i8 {
    if n < 0x80 {
        n as i8
    } else {
        (n - 0x100) as i8
    }
}

/// The signed 16-bit value an unsigned image below `pow256(2)` stands for.
pub open spec fn i16_from_repr(n: nat) -> i16 {
    if n < 0x8000 {
        n as i16
    } else {
        (n - 0x1_0000) as i16
    }
}

/// The signed 32-bit value an unsigned image below `pow256(4)` stands for.
pub open spec fn i32_from_repr(n: nat) -> i32 {
    if n < 0x8000_0000 {
        n as i32
    } else {
        (n - 0x1_0000_0000) as i32
    }
}

/// The signed 64-bit value an unsigned image below `pow256(8)` stands for.
pub open spec fn i64_from_repr(n: nat) -> i64 {
    if n < 0x8000_0000_0000_0000 {
        n as i64
    } else {
        (n - 0x1_0000_0000_0000_0000) as i64
    }
}

/// Appends the single byte `v`.
pub fn encode_u8(dest: &mut Vec<u8>, v: u8)
    ensures
        final(dest)@ == old(dest)@ + be_enc(v as nat, 1),
{
    proof {
        reveal_with_fuel(be_enc, 2);
        assert(be_enc(v as nat, 1) =~= seq![v]);
    }
    dest.push(v);
}

/// Appends the two bytes of `v`, most significant first.
pub fn encode_u16(dest: &mut Vec<u8>, v: u16)
    ensures
        final(dest)@ == old(dest)@ + be_enc(v as nat, 2),
{
    proof {
        reveal_with_fuel(be_enc, 3);
        assert(be_enc(v as nat, 2) =~= seq![(v / 256) as u8, (v % 256) as u8]);
    }
    dest.push((v / 256) as u8);
    dest.push((v % 256) as u8);
}

/// Appends the four bytes of `v`, most significant first.
pub fn encode_u32(dest: &mut Vec<u8>, v: u32)
    ensures
        final(dest)@ == old(dest)@ + be_enc(v as nat, 4),
{
    let q1: u32 = v / 256;
    let q2: u32 = q1 / 256;
    let q3: u32 = q2 / 256;
    proof {
        reveal_with_fuel(be_enc, 5);
        vstd::arithmetic::div_mod::lemma_div_denominator(v as int, 256, 256);
        vstd::arithmetic::div_mod::lemma_div_denominator(v as int, 65536, 256);
        assert(be_enc(v as nat, 4) =~= seq![
            (q3 % 256) as u8,
            (q2 % 256) as u8,
            (q1 % 256) as u8,
            (v % 256) as u8,
        ]);
    }
    dest.push((q3 % 256) as u8);
    dest.push((q2 % 256) as u8);
    dest.push((q1 % 256) as u8);
    dest.push((v % 256) as u8);
}

/// Appends the eight bytes of `v`, most significant first.
pub fn encode_u64(dest: &mut Vec<u8>, v: u64)
    ensures
        final(dest)@ == old(dest)@ + be_enc(v as nat, 8),
{
    let q1: u64 = v / 256;
    let q2: u64 = q1 / 256;
    let q3: u64 = q2 / 256;
    let q4: u64 = q3 / 256;
    let q5: u64 = q4 / 256;
    let q6: u64 = q5 / 256;
    let q7: u64 = q6 / 256;
    proof {
        reveal_with_fuel(be_enc, 9);
        vstd::arithmetic::div_mod::lemma_div_denominator(v as int, 256, 256);
        vstd::arithmetic::div_mod::lemma_div_denominator(v as int, 65536, 256);
        vstd::arithmetic::div_mod::lemma_div_denominator(v as int, 0x100_0000, 256);
        vstd::arithmetic::div_mod::lemma_div_denominator(v as int, 0x1_0000_0000, 256);
        vstd::arithmetic::div_mod::lemma_div_denominator(v as int, 0x100_0000_0000, 256);
        vstd::arithmetic::div_mod::lemma_div_denominator(v as int, 0x1_0000_0000_0000, 256);
        assert(be_enc(v as nat, 8) =~= seq![
            (q7 % 256) as u8,
            (q6 % 256) as u8,
            (q5 % 256) as u8,
            (q4 % 256) as u8,
            (q3 % 256) as u8,
            (q2 % 256) as u8,
            (q1 % 256) as u8,
            (v % 256) as u8,
        ]);
    }
    dest.push((q7 % 256) as u8);
    dest.push((q6 % 256) as u8);
    dest.push((q5 % 256) as u8);
    dest.push((q4 % 256) as u8);
    dest.push((q3 % 256) as u8);
    dest.push((q2 % 256) as u8);
    dest.push((q1 % 256) as u8);
    dest.push((v % 256) as u8);
}

/// Appends the two's-complement byte of `v`.
pub fn encode_i8(dest: &mut Vec<u8>, v: i8)
    ensures
        final(dest)@ == old(dest)@ + be_enc(i8_repr(v), 1),
{
    let u: u8 = if v >= 0 {
        v as u8
    } else {
        ((v as i16) + 0x100) as u8
    };
    encode_u8(dest, u);
}

/// Appends the two two's-complement bytes of `v`, most significant first.
pub fn encode_i16(dest: &mut Vec<u8>, v: i16)
    ensures
        final(dest)@ == old(dest)@ + be_enc(i16_repr(v), 2),
{
    let u: u16 = if v >= 0 {
        v as u16
    } else {
        ((v as i32) + 0x1_0000) as u16
    };
    encode_u16(dest, u);
}

/// Appends the four two's-complement bytes of `v`, most significant first.
pub fn encode_i32(dest: &mut Vec<u8>, v: i32)
    ensures
        final(dest)@ == old(dest)@ + be_enc(i32_repr(v), 4),
{
    let u: u32 = if v >= 0 {
        v as u32
    } else {
        ((v as i64) + 0x1_0000_0000) as u32
    };
    encode_u32(dest, u);
}

/// Appends the eight two's-complement bytes of `v`, most significant first.
pub fn encode_i64(dest: &mut Vec<u8>, v: i64)
    ensures
        final(dest)@ == old(dest)@ + be_enc(i64_repr(v), 8),
{
    let u: u64 = if v >= 0 {
        v as u64
    } else {
        ((v as i128) + 0x1_0000_0000_0000_0000) as u64
    };
    encode_u64(dest, u);
}

/// Reads one byte of the window `src[pos..end]`.
pub fn decode_u8(src: &Vec<u8>, pos: usize, end: usize) -> (r: Result<(u8, usize), ErrorKind>)
    requires
        pos <= end <= src@.len(),
    ensures
        match r {
            Ok((v, p2)) => {
                &&& end - pos >= 1
                &&& p2 == pos + 1
                &&& v as nat == be_val(src@.subrange(pos as int, pos + 1))
            },
            Err(e) => e == ErrorKind::UnexpectedEof && end - pos < 1,
        },
{
    if end - pos < 1 {
        return Err(ErrorKind::UnexpectedEof);
    }
    let b = src[pos];
    proof {
        reveal_with_fuel(be_val, 2);
        assert(src@.subrange(pos as int, pos + 1).drop_last() =~= Seq::<u8>::empty());
        assert(src@.subrange(pos as int, pos + 1).last() == b);
    }
    Ok((b, pos + 1))
}

/// Reads two big-endian bytes of the window `src[pos..end]`.
pub fn decode_u16(src: &Vec<u8>, pos: usize, end: usize) -> (r: Result<(u16, usize), ErrorKind>)
    requires
        pos <= end <= src@.len(),
    ensures
        match r {
            Ok((v, p2)) => {
                &&& end - pos >= 2
                &&& p2 == pos + 2
                &&& v as nat == be_val(src@.subrange(pos as int, pos + 2))
            },
            Err(e) => e == ErrorKind::UnexpectedEof && end - pos < 2,
        },
{
    if end - pos < 2 {
        return Err(ErrorKind::UnexpectedEof);
    }
    let b0 = src[pos];
    let b1 = src[pos + 1];
    let v: u16 = (b0 as u16) * 256 + (b1 as u16);
    proof {
        let w = src@.subrange(pos as int, pos + 2);
        assert(w.drop_last() =~= seq![b0]);
        assert(seq![b0].drop_last() =~= Seq::<u8>::empty());
        reveal_with_fuel(be_val, 3);
        assert(be_val(w) == b0 * 256 + b1);
    }
    Ok((v, pos + 2))
}

/// Reads four big-endian bytes of the window `src[pos..end]`.
pub fn decode_u32(src: &Vec<u8>, pos: usize, end: usize) -> (r: Result<(u32, usize), ErrorKind>)
    requires
        pos <= end <= src@.len(),
    ensures
        match r {
            Ok((v, p2)) => {
                &&& end - pos >= 4
                &&& p2 == pos + 4
                &&& v as nat == be_val(src@.subrange(pos as int, pos + 4))
            },
            Err(e) => e == ErrorKind::UnexpectedEof && end - pos < 4,
        },
{
    if end - pos < 4 {
        return Err(ErrorKind::UnexpectedEof);
    }
    let b0 = src[pos];
    let b1 = src[pos + 1];
    let b2 = src[pos + 2];
    let b3 = src[pos + 3];
    let v: u32 = (b0 as u32) * 0x100_0000 + (b1 as u32) * 0x1_0000 + (b2 as u32) * 0x100
        + (b3 as u32);
    proof {
        let w = src@.subrange(pos as int, pos + 4);
        assert(w.drop_last() =~= seq![b0, b1, b2]);
        assert(seq![b0, b1, b2].drop_last() =~= seq![b0, b1]);
        assert(seq![b0, b1].drop_last() =~= seq![b0]);
        assert(seq![b0].drop_last() =~= Seq::<u8>::empty());
        reveal_with_fuel(be_val, 5);
        assert(be_val(w) == ((b0 * 256 + b1) * 256 + b2) * 256 + b3);
    }
    Ok((v, pos + 4))
}

/// Reads eight big-endian bytes of the window `src[pos..end]`.
pub fn decode_u64(src: &Vec<u8>, pos: usize, end: usize) -> (r: Result<(u64, usize), ErrorKind>)
    requires
        pos <= end <= src@.len(),
    ensures
        match r {
            Ok((v, p2)) => {
                &&& end - pos >= 8
                &&& p2 == pos + 8
                &&& v as nat == be_val(src@.subrange(pos as int, pos + 8))
            },
            Err(e) => e == ErrorKind::UnexpectedEof && end - pos < 8,
        },
{
    if end - pos < 8 {
        return Err(ErrorKind::UnexpectedEof);
    }
    let b0 = src[pos];
    let b1 = src[pos + 1];
    let b2 = src[pos + 2];
    let b3 = src[pos + 3];
    let b4 = src[pos + 4];
    let b5 = src[pos + 5];
    let b6 = src[pos + 6];
    let b7 = src[pos + 7];
    let v: u64 = (b0 as u64) * 0x100_0000_0000_0000 + (b1 as u64) * 0x1_0000_0000_0000 + (b2
        as u64) * 0x100_0000_0000 + (b3 as u64) * 0x1_0000_0000 + (b4 as u64) * 0x100_0000 + (b5
        as u64) * 0x1_0000 + (b6 as u64) * 0x100 + (b7 as u64);
    proof {
        let w = src@.subrange(pos as int, pos + 8);
        assert(w.drop_last() =~= seq![b0, b1, b2, b3, b4, b5, b6]);
        assert(seq![b0, b1, b2, b3, b4, b5, b6].drop_last() =~= seq![b0, b1, b2, b3, b4, b5]);
        assert(seq![b0, b1, b2, b3, b4, b5].drop_last() =~= seq![b0, b1, b2, b3, b4]);
        assert(seq![b0, b1, b2, b3, b4].drop_last() =~= seq![b0, b1, b2, b3]);
        assert(seq![b0, b1, b2, b3].drop_last() =~= seq![b0, b1, b2]);
        assert(seq![b0, b1, b2].drop_last() =~= seq![b0, b1]);
        assert(seq![b0, b1].drop_last() =~= seq![b0]);
        assert(seq![b0].drop_last() =~= Seq::<u8>::empty());
        reveal_with_fuel(be_val, 9);
        assert(be_val(w) == ((((((b0 * 256 + b1) * 256 + b2) * 256 + b3) * 256 + b4) * 256 + b5)
            * 256 + b6) * 256 + b7);
    }
    Ok((v, pos + 8))
}

/// Reads one two's-complement byte of the window `src[pos..end]`.
pub fn decode_i8(src: &Vec<u8>, pos: usize, end: usize) -> (r: Result<(i8, usize), ErrorKind>)
    requires
        pos <= end <= src@.len(),
    ensures
        match r {
            Ok((v, p2)) => {
                &&& end - pos >= 1
                &&& p2 == pos + 1
                &&& v == i8_from_repr(be_val(src@.subrange(pos as int, pos + 1)))
            },
            Err(e) => e == ErrorKind::UnexpectedEof && end - pos < 1,
        },
{
    let (u, p2) = match decode_u8(src, pos, end) {
        Ok(x) => x,
        Err(e) => {
            return Err(e);
        },
    };
    let v: i8 = if u < 0x80 {
        u as i8
    } else {
        ((u as i16) - 0x100) as i8
    };
    Ok((v, p2))
}

/// Reads two two's-complement big-endian bytes of the window.
pub fn decode_i16(src: &Vec<u8>, pos: usize, end: usize) -> (r: Result<(i16, usize), ErrorKind>)
    requires
        pos <= end <= src@.len(),
    ensures
        match r {
            Ok((v, p2)) => {
                &&& end - pos >= 2
                &&& p2 == pos + 2
                &&& v == i16_from_repr(be_val(src@.subrange(pos as int, pos + 2)))
            },
            Err(e) => e == ErrorKind::UnexpectedEof && end - pos < 2,
        },
{
    let (u, p2) = match decode_u16(src, pos, end) {
        Ok(x) => x,
        Err(e) => {
            return Err(e);
        },
    };
    let v: i16 = if u < 0x8000 {
        u as i16
    } else {
        ((u as i32) - 0x1_0000) as i16
    };
    Ok((v, p2))
}

/// Reads four two's-complement big-endian bytes of the window.
pub fn decode_i32(src: &Vec<u8>, pos: usize, end: usize) -> (r: Result<(i32, usize), ErrorKind>)
    requires
        pos <= end <= src@.len(),
    ensures
        match r {
            Ok((v, p2)) => {
                &&& end - pos >= 4
                &&& p2 == pos + 4
                &&& v == i32_from_repr(be_val(src@.subrange(pos as int, pos + 4)))
            },
            Err(e) => e == ErrorKind::UnexpectedEof && end - pos < 4,
        },
{
    let (u, p2) = match decode_u32(src, pos, end) {
        Ok(x) => x,
        Err(e) => {
            return Err(e);
        },
    };
    proof {
        lemma_be_val_bound(src@.subrange(pos as int, pos + 4));
        reveal_with_fuel(pow256, 5);
    }
    let v: i32 = if u < 0x8000_0000 {
        u as i32
    } else {
        ((u as i64) - 0x1_0000_0000) as i32
    };
    Ok((v, p2))
}

/// Reads eight two's-complement big-endian bytes of the window.
pub fn decode_i64(src: &Vec<u8>, pos: usize, end: usize) -> (r: Result<(i64, usize), ErrorKind>)
    requires
        pos <= end <= src@.len(),
    ensures
        match r {
            Ok((v, p2)) => {
                &&& end - pos >= 8
                &&& p2 == pos + 8
                &&& v == i64_from_repr(be_val(src@.subrange(pos as int, pos + 8)))
            },
            Err(e) => e == ErrorKind::UnexpectedEof && end - pos < 8,
        },
{
    let (u, p2) = match decode_u64(src, pos, end) {
        Ok(x) => x,
        Err(e) => {
            return Err(e);
        },
    };
    proof {
        lemma_be_val_bound(src@.subrange(pos as int, pos + 8));
        reveal_with_fuel(pow256, 9);
    }
    let v: i64 = if u < 0x8000_0000_0000_0000 {
        u as i64
    } else {
        ((u as i128) - 0x1_0000_0000_0000_0000) as i64
    };
    Ok((v, p2))
}

/// A signed value read back from its own two's-complement image is itself.
pub proof fn lemma_i32_repr_round(v: i32)
    ensures
        i32_from_repr(i32_repr(v)) == v,
{
}

/// A signed value read back from its own two's-complement image is itself.
pub proof fn lemma_i64_repr_round(v: i64)
    ensures
        i64_from_repr(i64_repr(v)) == v,
{
}

/// A signed value read back from its own two's-complement image is itself.
pub proof fn lemma_i8_repr_round(v: i8)
    ensures
        i8_from_repr(i8_repr(v)) == v,
{
}

/// A signed value read back from its own two's-complement image is itself.
pub proof fn lemma_i16_repr_round(v: i16)
    ensures
        i16_from_repr(i16_repr(v)) == v,
{
}

/// The two's-complement image of a signed value fits its width.
pub proof fn lemma_i32_repr_bound(v: i32)
    ensures
        i32_repr(v) < pow256(4),
{
    reveal_with_fuel(pow256, 5);
}

/// The two's-complement image of a signed value fits its width.
pub proof fn lemma_i64_repr_bound(v: i64)
    ensures
        i64_repr(v) < pow256(8),
{
    reveal_with_fuel(pow256, 9);
}

} // verus!
