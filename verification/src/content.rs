//! Describing record data for humans: binary detection and a short
//! textual rendering.
//!
//! Whether a buffer is "binary" is decided by the `content_inspector`
//! crate; its verdict and the lossy UTF-8 reading of a buffer are
//! named spec functions here, both functions of the bytes alone.  The
//! rendering around them — the fixed wording, the decimal byte count,
//! the display cap — is verified.

use vstd::prelude::*;
use vstd::string::StringExecFns;

use crate::record::RecordData;

verus! {

/// The number of characters shown when rendering record data for
/// humans; longer text is cut and marked with an ellipsis.
pub const MAX_STRING_DISPLAY: usize = 16384;

/// Whether `content_inspector` classifies these bytes as binary.
pub uninterp spec fn binary_content(b: Seq<u8>) -> bool;

/// The lossy UTF-8 reading of these bytes, invalid sequences replaced.
pub uninterp spec fn lossy_utf8(b: Seq<u8>) -> Seq<char>;

/// Relies on content_inspector::inspect: a pure function of the bytes
/// that reports BINARY or a textual encoding; an empty buffer is
/// reported as UTF-8, hence not binary.
#[verifier::external_body]
fn inspect_binary(b: &Vec<u8>) -> (r: bool)
    ensures
        r == binary_content(b@),
        b@.len() == 0 ==> r == false,
{
    matches!(content_inspector::inspect(b.as_slice()), content_inspector::ContentType::BINARY)
}

/// Relies on String::from_utf8_lossy: the result depends on the bytes
/// alone, and an empty buffer reads as the empty string.
#[verifier::external_body]
fn lossy_string(b: &Vec<u8>) -> (r: String)
    ensures
        r@ == lossy_utf8(b@),
        b@.len() == 0 ==> r@.len() == 0,
{
    String::from_utf8_lossy(b.as_slice()).into_owned()
}

/// The decimal digit character for a value below ten.
pub open spec fn dec_digit(d: nat) -> char {
    if d == 0 {
        '0'
    } else if d == 1 {
        '1'
    } else if d == 2 {
        '2'
    } else if d == 3 {
        '3'
    } else if d == 4 {
        '4'
    } else if d == 5 {
        '5'
    } else if d == 6 {
        '6'
    } else if d == 7 {
        '7'
    } else if d == 8 {
        '8'
    } else {
        '9'
    }
}

/// The decimal rendering of a number, most significant digit first.
pub open spec fn dec_chars(n: nat) -> Seq<char>
    decreases n,
{
    if n < 10 {
        seq![dec_digit(n)]
    } else {
        dec_chars(n / 10) + seq![dec_digit(n % 10)]
    }
}

/// Appends one decimal digit character.
fn append_digit(s: &mut String, d: u64)
    requires
        d < 10,
    ensures
        final(s)@ == old(s)@ + seq![dec_digit(d as nat)],
{
    if d == 0 {
        proof {
            reveal_strlit("0");
        }
        s.append("0");
        proof {
            assert("0"@ =~= seq![dec_digit(0)]);
        }
    } else if d == 1 {
        proof {
            reveal_strlit("1");
        }
        s.append("1");
        proof {
            assert("1"@ =~= seq![dec_digit(1)]);
        }
    } else if d == 2 {
        proof {
            reveal_strlit("2");
        }
        s.append("2");
        proof {
            assert("2"@ =~= seq![dec_digit(2)]);
        }
    } else if d == 3 {
        proof {
            reveal_strlit("3");
        }
        s.append("3");
        proof {
            assert("3"@ =~= seq![dec_digit(3)]);
        }
    } else if d == 4 {
        proof {
            reveal_strlit("4");
        }
        s.append("4");
        proof {
            assert("4"@ =~= seq![dec_digit(4)]);
        }
    } else if d == 5 {
        proof {
            reveal_strlit("5");
        }
        s.append("5");
        proof {
            assert("5"@ =~= seq![dec_digit(5)]);
        }
    } else if d == 6 {
        proof {
            reveal_strlit("6");
        }
        s.append("6");
        proof {
            assert("6"@ =~= seq![dec_digit(6)]);
        }
    } else if d == 7 {
        proof {
            reveal_strlit("7");
        }
        s.append("7");
        proof {
            assert("7"@ =~= seq![dec_digit(7)]);
        }
    } else if d == 8 {
        proof {
            reveal_strlit("8");
        }
        s.append("8");
        proof {
            assert("8"@ =~= seq![dec_digit(8)]);
        }
    } else {
        proof {
            reveal_strlit("9");
        }
        s.append("9");
        proof {
            assert("9"@ =~= seq![dec_digit(9)]);
        }
    }
}

/// Appends the decimal rendering of `n`.
fn append_decimal(s: &mut String, n: u64)
    ensures
        final(s)@ == old(s)@ + dec_chars(n as nat),
    decreases n,
{
    if n >= 10 {
        append_decimal(s, n / 10);
        append_digit(s, n % 10);
        proof {
            assert((old(s)@ + dec_chars((n / 10) as nat)) + seq![dec_digit((n % 10) as nat)]
                =~= old(s)@ + dec_chars(n as nat));
        }
    } else {
        append_digit(s, n);
    }
}

/// What `describe` renders for the given bytes: binary data is shown
/// as its byte count, text is shown as it reads, cut at the display
/// cap and marked with an ellipsis.
pub open spec fn describe_view(data: Seq<u8>) -> Seq<char> {
    if binary_content(data) {
        "binary: ("@ + dec_chars(data.len()) + " bytes)"@
    } else if data.len() < MAX_STRING_DISPLAY {
        "text: '"@ + lossy_utf8(data) + "'"@
    } else {
        "text: '"@ + lossy_utf8(data.take(MAX_STRING_DISPLAY as int)) + "...'"@
    }
}

impl RecordData {
    /// Whether the contents look like binary data rather than text.
    pub fn is_binary(&self) -> (r: bool)
        ensures
            r == binary_content(self@),
    {
        inspect_binary(self.as_vec())
    }

    /// A short human-readable description of the contents: `binary:
    /// (N bytes)` for binary data, `text: '...'` for text.
    pub fn describe(&self) -> (r: String)
        ensures
            r@ == describe_view(self@),
    {
        if self.is_binary() {
            let mut out = String::from_str("binary: (");
            append_decimal(&mut out, self.len() as u64);
            out.append(" bytes)");
            proof {
                assert(out@ =~= describe_view(self@));
            }
            out
        } else if self.len() < MAX_STRING_DISPLAY {
            let mut out = String::from_str("text: '");
            let body = lossy_string(self.as_vec());
            out.append(body.as_str());
            out.append("'");
            proof {
                assert(out@ =~= describe_view(self@));
            }
            out
        } else {
            let mut prefix: Vec<u8> = Vec::new();
            let data = self.as_vec();
            let mut j: usize = 0;
            while j < MAX_STRING_DISPLAY
                invariant
                    j <= MAX_STRING_DISPLAY <= data@.len(),
                    data@ == self@,
                    prefix@ =~= data@.subrange(0, j as int),
                decreases MAX_STRING_DISPLAY - j,
            {
                prefix.push(data[j]);
                proof {
                    assert(prefix@ =~= data@.subrange(0, j + 1));
                }
                j = j + 1;
            }
            let mut out = String::from_str("text: '");
            let body = lossy_string(&prefix);
            out.append(body.as_str());
            out.append("...'");
            proof {
                assert(prefix@ =~= self@.take(MAX_STRING_DISPLAY as int));
                assert(out@ =~= describe_view(self@));
            }
            out
        }
    }
}

} // verus!
