use vstd::prelude::*;

use crate::error::{PdfError, PdfErrorKind};
use crate::scan::{is_regular, spec_is_regular};

use crate::parsable::{reads, rest_from, Parsable};
verus! {

pub open spec fn spec_is_hex_digit(c: u8) -> bool {
    (0x30 <= c <= 0x39) || (0x41 <= c <= 0x46) || (0x61 <= c <= 0x66)
}

pub open spec fn spec_hex_value(c: u8) -> int {
    if 0x30 <= c <= 0x39 {
        c - 0x30
    } else if 0x41 <= c <= 0x46 {
        c - 0x41 + 10
    } else if 0x61 <= c <= 0x66 {
        c - 0x61 + 10
    } else {
        0
    }
}

/// The value of an ASCII hex digit, or `None` for any other byte.
pub fn hex_digit_value(c: u8) -> (r: Option<u8>)
    ensures
        r == (if spec_is_hex_digit(c) {
            Some(spec_hex_value(c) as u8)
        } else {
            None::<u8>
        }),
        r matches Some(v) ==> v < 16,
{
    if 0x30 <= c && c <= 0x39 {
        Some(c - 0x30)
    } else if 0x41 <= c && c <= 0x46 {
        Some(c - 0x41 + 10)
    } else if 0x61 <= c && c <= 0x66 {
        Some(c - 0x61 + 10)
    } else {
        None
    }
}

/// A PDF name: its bytes, without the leading `/` and with `#xx` escapes decoded.
#[derive(Clone, Debug, PartialEq, Eq, Hash)]
pub struct PdfName {
    data: Vec<u8>,
}

impl View for PdfName {
    type V = Seq<u8>;

    closed spec fn view(&self) -> Seq<u8> {
        self.data@
    }
}

/// The name's content read from position `i` on, appended to `acc`, with the end position.
pub open spec fn name_body(s: Seq<u8>, i: int, acc: Seq<u8>) -> Result<(Seq<u8>, int), PdfErrorKind>
    decreases s.len() - i,
{
    if i < 0 || i >= s.len() {
        Ok((acc, i))
    } else if s[i] == 0 {
        Err(PdfErrorKind::Parse)
    } else if s[i] == 0x23 {
        if i + 2 < s.len() && spec_is_hex_digit(s[i + 1]) && spec_is_hex_digit(s[i + 2]) {
            name_body(
                s,
                i + 3,
                acc.push((spec_hex_value(s[i + 1]) * 16 + spec_hex_value(s[i + 2])) as u8),
            )
        } else {
            Err(PdfErrorKind::Parse)
        }
    } else if spec_is_regular(s[i]) {
        name_body(s, i + 1, acc.push(s[i]))
    } else {
        Ok((acc, i))
    }
}

/// A name read at position `i` of `s`: `/` and then its content.
pub open spec fn spec_parse_name(s: Seq<u8>, i: int) -> Result<(Seq<u8>, int), PdfErrorKind> {
    if 0 <= i < s.len() && s[i] == 0x2f {
        name_body(s, i + 1, Seq::empty())
    } else {
        Err(PdfErrorKind::Parse)
    }
}

impl PdfName {
    pub fn from_raw_bytes(bytes: &[u8]) -> (r: Self)
        ensures
            r@ == bytes@,
    {
        PdfName { data: vstd::slice::slice_to_vec(bytes) }
    }

    pub fn bytes(&self) -> (r: &[u8])
        ensures
            r@ == self@,
    {
        self.data.as_slice()
    }

    /// Reads a name at position `i` of `b`, giving the position just past it.
    pub fn parse_at(b: &[u8], i: usize) -> (r: Result<(PdfName, usize), PdfError>)
        requires
            i <= b@.len(),
        ensures
            match r {
                Ok((n, e)) => spec_parse_name(b@, i as int) == Ok::<(Seq<u8>, int), PdfErrorKind>(
                    (n@, e as int),
                ) && i < e <= b@.len(),
                Err(err) => spec_parse_name(b@, i as int) == Err::<(Seq<u8>, int), PdfErrorKind>(
                    err.kind,
                ),
            },
    {
        if i >= b.len() || b[i] != 0x2f {
            return Err(PdfError::parse_error());
        }
        let mut data: Vec<u8> = Vec::new();
        let mut j: usize = i + 1;
        while j < b.len()
            invariant
                i < j <= b@.len(),
                b@[i as int] == 0x2f,
                name_body(b@, j as int, data@) == name_body(b@, i + 1, Seq::empty()),
            decreases b@.len() - j,
        {
            let c = b[j];
            if c == 0 {
                return Err(PdfError::parse_error());
            } else if c == 0x23 {
                if b.len() - j > 2 {
                    match (hex_digit_value(b[j + 1]), hex_digit_value(b[j + 2])) {
                        (Some(h), Some(l)) => {
                            data.push(h * 16 + l);
                            j = j + 3;
                        },
                        _ => {
                            return Err(PdfError::parse_error());
                        },
                    }
                } else {
                    return Err(PdfError::parse_error());
                }
            } else if is_regular(c) {
                data.push(c);
                j = j + 1;
            } else {
                let n = PdfName { data };
                return Ok((n, j));
            }
        }
        Ok((PdfName { data }, j))
    }
}

impl Parsable for PdfName {
    fn from_bytes(bytes: &[u8]) -> (r: Result<(PdfName, &[u8]), PdfError>)
        ensures
            match r {
                Ok((v, rest)) => reads(spec_parse_name(bytes@, 0), bytes@, v@, rest@),
                Err(err) => spec_parse_name(bytes@, 0) == Err::<(Seq<u8>, int), PdfErrorKind>(err.kind),
            },
    {
        match PdfName::parse_at(bytes, 0) {
            Ok((v, e)) => Ok((v, rest_from(bytes, e))),
            Err(err) => Err(err),
        }
    }
}

/// A name written as `/#` and the two hex digits of a byte `x` holds that one byte, and
/// reading it consumes all four bytes.
pub proof fn lemma_name_escape(x: u8, hi: u8, lo: u8)
    requires
        spec_is_hex_digit(hi),
        spec_is_hex_digit(lo),
        spec_hex_value(hi) == x / 16,
        spec_hex_value(lo) == x % 16,
    ensures
        spec_parse_name(seq![0x2fu8, 0x23, hi, lo], 0) == Ok::<(Seq<u8>, int), PdfErrorKind>((seq![x], 4)),
{
    let s = seq![0x2fu8, 0x23, hi, lo];
    let v = (spec_hex_value(hi) * 16 + spec_hex_value(lo)) as u8;
    assert(v == x);
    assert(Seq::<u8>::empty().push(v) =~= seq![x]);
    assert(name_body(s, 4, seq![x]) == Ok::<(Seq<u8>, int), PdfErrorKind>((seq![x], 4)));
}

} // verus!
