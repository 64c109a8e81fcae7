//! Variable-length signed integers: zig-zag mapping followed by base-128
//! continuation-bit encoding.
//!
//! A signed value is first mapped to an unsigned one by zig-zag (small
//! magnitudes of either sign become small unsigned values), then emitted
//! seven bits at a time, least significant group first, with the high bit
//! of every non-terminal byte set.  An encoding is one to ten bytes long.
//! The decoder accepts exactly the canonical encodings: it fails with
//! `InvalidData` on a value wider than ten groups, an over-long encoding
//! (a redundant trailing zero group) or a tenth group above one, and with
//! `UnexpectedEof` when the window ends while a continuation bit is set.

use vstd::prelude::*;

use crate::error::ErrorKind;

verus! {

/// 128 to the power `n`: the number of values `n` seven-bit groups hold.
pub open spec fn pow128(n: nat) -> nat
    decreases n,
{
    if n == 0 {
        1
    } else {
        128 * pow128((n - 1) as nat)
    }
}

/// The zig-zag image of a signed value: `0, -1, 1, -2, 2, ...` map to
/// `0, 1, 2, 3, 4, ...`.  This is the arithmetic statement of the usual
/// shift-and-xor formulation.
pub open spec fn zigzag(n: i64) -> u64 {
    if n >= 0 {
        (2 * n) as u64
    } else {
        (-2 * n - 1) as u64
    }
}

/// The signed value a zig-zag image stands for.
pub open spec fn unzigzag(z: u64) -> i64 {
    if z % 2 == 0 {
        (z / 2) as i64
    } else {
        (-((z / 2) as int) - 1) as i64
    }
}

/// The base-128 encoding of an unsigned value, least significant group
/// first, continuation bit on every non-terminal byte.
pub open spec fn varint_enc_u(z: u64) -> Seq<u8>
    decreases z,
{
    if z < 128 {
        seq![z as u8]
    } else {
        seq![((z % 128) + 128) as u8] + varint_enc_u(z / 128)
    }
}

/// The wire encoding of a signed value: base-128 of its zig-zag image.
pub open spec fn varint_enc(n: i64) -> Seq<u8> {
    varint_enc_u(zigzag(n))
}

/// One step of base-128 decoding: `i` groups consumed so far with
/// accumulated value `val`.  Mirrors the checks of the executable decoder
/// byte for byte.
pub open spec fn vdu(s: Seq<u8>, i: nat, val: nat) -> Result<(u64, int), ErrorKind>
    decreases 10 - i,
{
    if i >= 10 {
        Err(ErrorKind::InvalidData)
    } else if i >= s.len() {
        Err(ErrorKind::UnexpectedEof)
    } else {
        let b = s[i as int];
        if b >= 128 {
            vdu(s, i + 1, (val + (b - 128) * pow128(i)) as nat)
        } else if i > 0 && b == 0 {
            Err(ErrorKind::InvalidData)
        } else if i == 9 && b > 1 {
            Err(ErrorKind::InvalidData)
        } else {
            Ok((((val + b * pow128(i)) as nat) as u64, i as int + 1))
        }
    }
}

/// Decoding an unsigned base-128 value from the head of a window:
/// the value and the number of bytes it occupied, or the exact failure.
pub open spec fn varint_dec_u(s: Seq<u8>) -> Result<(u64, int), ErrorKind> {
    vdu(s, 0, 0)
}

/// Decoding a signed varint from the head of a window.
pub open spec fn varint_dec(s: Seq<u8>) -> Result<(i64, int), ErrorKind> {
    match varint_dec_u(s) {
        Ok((z, n)) => Ok((unzigzag(z), n)),
        Err(e) => Err(e),
    }
}

/// Zig-zag is inverted by its unsigned-to-signed reading.
pub proof fn lemma_zigzag_round(n: i64)
    ensures
        unzigzag(zigzag(n)) == n,
{
    if n >= 0 {
        assert((2 * n) % 2 == 0);
        assert((2 * n) / 2 == n);
    } else {
        assert((-2 * n - 1) % 2 == 1);
        assert((-2 * n - 1) / 2 == -n - 1);
    }
}

pub proof fn lemma_pow128_pos(n: nat)
    ensures
        pow128(n) >= 1,
    decreases n,
{
    if n > 0 {
        lemma_pow128_pos((n - 1) as nat);
    }
}

/// `pow128` splits over addition of exponents.
pub proof fn lemma_pow128_add(a: nat, b: nat)
    ensures
        pow128(a + b) == pow128(a) * pow128(b),
    decreases a,
{
    if a == 0 {
        assert(pow128(b) == 1 * pow128(b)) by (nonlinear_arith);
    } else {
        lemma_pow128_add((a - 1) as nat, b);
        assert(((a + b) - 1) as nat == ((a - 1) as nat + b));
        assert(128 * (pow128((a - 1) as nat) * pow128(b)) == (128 * pow128((a - 1) as nat))
            * pow128(b)) by (nonlinear_arith);
    }
}

/// An encoding never exceeds `k` bytes when the value fits `k` groups.
pub proof fn lemma_enc_u_len_le(z: u64, k: nat)
    requires
        z < pow128(k),
        k >= 1,
    ensures
        1 <= varint_enc_u(z).len() <= k,
    decreases z,
{
    if z >= 128 {
        assert(k >= 2) by {
            reveal_with_fuel(pow128, 2);
        };
        assert(z / 128 < pow128((k - 1) as nat)) by {
            assert(pow128(k) == 128 * pow128((k - 1) as nat));
        };
        lemma_enc_u_len_le(z / 128, (k - 1) as nat);
    }
}

/// No encoding is longer than ten bytes.
pub proof fn lemma_enc_u_len(z: u64)
    ensures
        1 <= varint_enc_u(z).len() <= 10,
{
    assert(z < pow128(10)) by {
        reveal_with_fuel(pow128, 11);
    };
    lemma_enc_u_len_le(z, 10);
}

/// The decoder, resumed at group `i` with accumulator `val`, consumes an
/// encoding placed there and yields the combined value.
proof fn lemma_vdu_enc(s: Seq<u8>, i: nat, val: nat, z: u64)
    requires
        i <= 9,
        val < pow128(i),
        i == 0 || z > 0,
        val + z * pow128(i) < 0x1_0000_0000_0000_0000,
        i + varint_enc_u(z).len() <= s.len(),
        s.subrange(i as int, i + varint_enc_u(z).len() as int) =~= varint_enc_u(z),
    ensures
        vdu(s, i, val) == Ok::<(u64, int), ErrorKind>(
            (((val + z * pow128(i)) as nat) as u64, i + varint_enc_u(z).len() as int),
        ),
    decreases z,
{
    lemma_pow128_pos(i);
    let e = varint_enc_u(z);
    assert(e.len() >= 1) by {
        lemma_enc_u_len(z);
    };
    let w = s.subrange(i as int, i + e.len() as int);
    assert(w[0] == s[i as int]);
    let b = s[i as int];
    assert(b == e[0]);
    if z < 128 {
        assert(e =~= seq![z as u8]);
        assert(b == z as u8);
        if i == 9 {
            assert(pow128(9) == 0x8000_0000_0000_0000) by {
                reveal_with_fuel(pow128, 10);
            };
            assert(z <= 1) by {
                if z >= 2 {
                    assert(z * pow128(9) >= 2 * pow128(9)) by (nonlinear_arith)
                        requires
                            z >= 2,
                            pow128(9int as nat) >= 1,
                    ;
                }
            };
        }
        assert(vdu(s, i, val) == Ok::<(u64, int), ErrorKind>(
            (((val + b * pow128(i)) as nat) as u64, i as int + 1),
        ));
    } else {
        assert(e == seq![((z % 128) + 128) as u8] + varint_enc_u(z / 128));
        assert(b == ((z % 128) + 128) as u8);
        assert(b >= 128);
        // A continuation group at `i` means the value spills past group `i`,
        // so group `i + 1` still lies inside the ten-group budget.
        assert(i <= 8) by {
            if i == 9 {
                assert(pow128(10) == 0x40_0000_0000_0000_0000) by {
                    reveal_with_fuel(pow128, 11);
                };
                assert(z * pow128(9) >= 128 * pow128(9)) by (nonlinear_arith)
                    requires
                        z >= 128,
                        pow128(9int as nat) >= 1,
                ;
                assert(128 * pow128(9) == pow128(10)) by {
                    reveal_with_fuel(pow128, 11);
                };
            }
        };
        let val2 = (val + (b - 128) * pow128(i)) as nat;
        let z2 = z / 128;
        assert(b - 128 == z % 128);
        // The new accumulator fits the next group boundary.
        assert(val2 < pow128(i + 1)) by {
            assert((z % 128) * pow128(i) <= 127 * pow128(i)) by (nonlinear_arith)
                requires
                    0 <= z % 128 <= 127,
                    pow128(i) >= 1,
            ;
            assert(pow128(i + 1) == 128 * pow128(i));
        };
        // Combined values agree: val + z * 128^i == val2 + (z/128) * 128^(i+1).
        assert(val + z * pow128(i) == val2 + z2 * pow128(i + 1)) by {
            vstd::arithmetic::div_mod::lemma_fundamental_div_mod(z as int, 128);
            assert(pow128(i + 1) == 128 * pow128(i));
            assert((128 * (z as int / 128) + z as int % 128) * pow128(i) == (z as int / 128) * (
            128 * pow128(i)) + (z as int % 128) * pow128(i)) by (nonlinear_arith);
        };
        let e2 = varint_enc_u(z2);
        assert(e2.len() == e.len() - 1);
        assert(s.subrange(i as int + 1, i as int + 1 + e2.len() as int) =~= e2) by {
            assert forall|k: int| 0 <= k < e2.len() implies s.subrange(
                i as int + 1,
                i as int + 1 + e2.len() as int,
            )[k] == e2[k] by {
                assert(w[k + 1] == s[i + k + 1]);
                assert(e[k + 1] == e2[k]);
            };
        };
        lemma_vdu_enc(s, i + 1, val2, z2);
        assert(i + e.len() as int == (i + 1) + e2.len() as int);
    }
}

/// Round trip at the unsigned level: decoding a window that begins with
/// the encoding of `z` yields `z` and consumes exactly that encoding.
pub proof fn lemma_varint_u_round_trip(z: u64, rest: Seq<u8>)
    ensures
        varint_dec_u(varint_enc_u(z) + rest) == Ok::<(u64, int), ErrorKind>(
            (z, varint_enc_u(z).len() as int),
        ),
{
    let s = varint_enc_u(z) + rest;
    lemma_enc_u_len(z);
    assert(s.subrange(0, varint_enc_u(z).len() as int) =~= varint_enc_u(z));
    assert(z * pow128(0) == z) by (nonlinear_arith);
    lemma_vdu_enc(s, 0, 0, z);
}

/// Round trip: decoding a window that begins with the encoding of `n`
/// yields `n` back and consumes exactly that encoding.
pub proof fn lemma_varint_round_trip(n: i64, rest: Seq<u8>)
    ensures
        varint_dec(varint_enc(n) + rest) == Ok::<(i64, int), ErrorKind>(
            (n, varint_enc(n).len() as int),
        ),
{
    lemma_varint_u_round_trip(zigzag(n), rest);
    lemma_zigzag_round(n);
}

/// The width rule: every encoding is one to ten bytes long.
pub proof fn lemma_varint_len(n: i64)
    ensures
        1 <= varint_enc(n).len() <= 10,
{
    lemma_enc_u_len(zigzag(n));
}

/// Appends the base-128 encoding of `z`.
pub fn encode_varint_u64(dest: &mut Vec<u8>, z: u64)
    ensures
        final(dest)@ == old(dest)@ + varint_enc_u(z),
{
    let mut z = z;
    let ghost z0: u64 = z;
    while z >= 128
        invariant
            dest@ + varint_enc_u(z) == old(dest)@ + varint_enc_u(z0),
        decreases z,
    {
        let g: u8 = ((z % 128) + 128) as u8;
        proof {
            assert(varint_enc_u(z) == seq![g] + varint_enc_u(z / 128));
            assert((dest@ + seq![g]) + varint_enc_u(z / 128) =~= dest@ + (seq![g] + varint_enc_u(
                z / 128,
            )));
        }
        dest.push(g);
        z = z / 128;
    }
    proof {
        assert(varint_enc_u(z) =~= seq![z as u8]);
    }
    dest.push(z as u8);
}

/// Appends the varint encoding of the signed value `n`.
pub fn encode_varint(dest: &mut Vec<u8>, n: i64)
    ensures
        final(dest)@ == old(dest)@ + varint_enc(n),
{
    let z: u64 = if n >= 0 {
        (n as u64) * 2
    } else {
        (-(n + 1) as u64) * 2 + 1
    };
    proof {
        assert(z == zigzag(n));
    }
    encode_varint_u64(dest, z);
}

/// The number of bytes the varint encoding of `n` occupies.
pub fn varint_size(n: i64) -> (r: usize)
    ensures
        r == varint_enc(n).len(),
{
    let mut z: u64 = if n >= 0 {
        (n as u64) * 2
    } else {
        (-(n + 1) as u64) * 2 + 1
    };
    proof {
        assert(z == zigzag(n));
    }
    let ghost z0: u64 = z;
    let mut count: usize = 1;
    while z >= 128
        invariant
            count >= 1,
            count + varint_enc_u(z).len() == 1 + varint_enc_u(z0).len(),
        decreases z,
    {
        proof {
            lemma_enc_u_len(z0);
            assert(varint_enc_u(z) == seq![((z % 128) + 128) as u8] + varint_enc_u(z / 128));
        }
        z = z / 128;
        count = count + 1;
    }
    count
}

/// Reads one base-128 unsigned value from the head of the window
/// `src[pos..end]`; the result is exactly what `varint_dec_u` says of
/// those bytes.
pub fn decode_varint_u64(src: &Vec<u8>, pos: usize, end: usize) -> (r: Result<
    (u64, usize),
    ErrorKind,
>)
    requires
        pos <= end <= src@.len(),
    ensures
        match r {
            Ok((v, p2)) => {
                &&& pos < p2 <= end
                &&& varint_dec_u(src@.subrange(pos as int, end as int)) == Ok::<
                    (u64, int),
                    ErrorKind,
                >((v, p2 - pos))
            },
            Err(e) => varint_dec_u(src@.subrange(pos as int, end as int)) == Err::<
                (u64, int),
                ErrorKind,
            >(e),
        },
{
    let ghost w = src@.subrange(pos as int, end as int);
    let mut i: usize = 0;
    let mut val: u64 = 0;
    let mut pow: u64 = 1;
    loop
        invariant
            pos <= end <= src@.len(),
            w == src@.subrange(pos as int, end as int),
            i <= 10,
            pos + i <= end,
            val < pow128(i as nat),
            pow == pow128(i as nat),
            vdu(w, 0, 0) == vdu(w, i as nat, val as nat),
        decreases 10 - i,
    {
        proof {
            reveal_with_fuel(pow128, 11);
        }
        if i >= 10 {
            return Err(ErrorKind::InvalidData);
        }
        if pos + i >= end {
            return Err(ErrorKind::UnexpectedEof);
        }
        let b = src[pos + i];
        proof {
            assert(w[i as int] == b);
        }
        if b >= 128 {
            if i == 9 {
                proof {
                    assert(vdu(w, 10, (val + (b - 128) * pow128(9)) as nat) == Err::<
                        (u64, int),
                        ErrorKind,
                    >(ErrorKind::InvalidData));
                }
                return Err(ErrorKind::InvalidData);
            }
            proof {
                assert((b - 128) * pow128(i as nat) <= 127 * pow128(i as nat))
                    by (nonlinear_arith)
                    requires
                        0 <= b - 128 <= 127,
                        pow128(i as nat) >= 1,
                ;
                assert(pow128((i + 1) as nat) == 128 * pow128(i as nat));
            }
            val = val + ((b - 128) as u64) * pow;
            pow = pow * 128;
            i = i + 1;
        } else {
            if i > 0 && b == 0 {
                return Err(ErrorKind::InvalidData);
            }
            if i == 9 && b > 1 {
                return Err(ErrorKind::InvalidData);
            }
            proof {
                if i == 9 {
                    assert(b * pow128(9) <= 1 * pow128(9)) by (nonlinear_arith)
                        requires
                            0 <= b <= 1,
                            pow128(9int as nat) >= 1,
                    ;
                } else {
                    assert(b * pow128(i as nat) <= 127 * pow128(i as nat)) by (nonlinear_arith)
                        requires
                            0 <= b <= 127,
                            pow128(i as nat) >= 1,
                    ;
                    assert(pow128((i + 1) as nat) == 128 * pow128(i as nat));
                    assert(pow128((i + 1) as nat) <= pow128(10)) by {
                        lemma_pow128_increases((i + 1) as nat, 10);
                    };
                }
            }
            let v: u64 = val + (b as u64) * pow;
            return Ok((v, pos + i + 1));
        }
    }
}

/// `pow128` grows with its exponent.
pub proof fn lemma_pow128_increases(a: nat, b: nat)
    requires
        a <= b,
    ensures
        pow128(a) <= pow128(b),
    decreases b,
{
    if a < b {
        lemma_pow128_increases(a, (b - 1) as nat);
        lemma_pow128_pos((b - 1) as nat);
    }
}

/// Reads one signed varint from the head of the window `src[pos..end]`;
/// the result is exactly what `varint_dec` says of those bytes.
pub fn decode_varint(src: &Vec<u8>, pos: usize, end: usize) -> (r: Result<
    (i64, usize),
    ErrorKind,
>)
    requires
        pos <= end <= src@.len(),
    ensures
        match r {
            Ok((v, p2)) => {
                &&& pos < p2 <= end
                &&& varint_dec(src@.subrange(pos as int, end as int)) == Ok::<
                    (i64, int),
                    ErrorKind,
                >((v, p2 - pos))
            },
            Err(e) => varint_dec(src@.subrange(pos as int, end as int)) == Err::<
                (i64, int),
                ErrorKind,
            >(e),
        },
{
    let (z, p2) = match decode_varint_u64(src, pos, end) {
        Ok(x) => x,
        Err(e) => {
            return Err(e);
        },
    };
    let v: i64 = if z % 2 == 0 {
        (z / 2) as i64
    } else {
        -((z / 2) as i64) - 1
    };
    proof {
        assert(v == unzigzag(z));
    }
    Ok((v, p2))
}

} // verus!
