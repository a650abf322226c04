use vstd::prelude::*;

use crate::error::{PdfError, PdfErrorKind};
use crate::parsable::{reads, rest_from, Parsable};
use crate::scan::{is_whitespace, spec_is_whitespace};

use vstd::string::StringSliceAdditionalSpecFns;

verus! {

pub open spec fn true_bytes() -> Seq<u8> {
    seq![0x74u8, 0x72, 0x75, 0x65]
}

pub open spec fn false_bytes() -> Seq<u8> {
    seq![0x66u8, 0x61, 0x6c, 0x73, 0x65]
}

/// Whether `lit` stands in `s` at position `i`.
pub open spec fn matches_at(s: Seq<u8>, i: int, lit: Seq<u8>) -> bool {
    0 <= i && i + lit.len() <= s.len() && s.subrange(i, i + lit.len()) == lit
}

/// Whether position `e` ends a keyword: the input ends there or whitespace follows.
pub open spec fn ends_keyword(s: Seq<u8>, e: int) -> bool {
    e == s.len() || (0 <= e < s.len() && spec_is_whitespace(s[e]))
}

/// A boolean read at `i`: `false` or `true`, followed by whitespace or the end.
pub open spec fn spec_parse_bool(s: Seq<u8>, i: int) -> Result<(bool, int), PdfErrorKind> {
    if matches_at(s, i, false_bytes()) && ends_keyword(s, i + 5) {
        Ok((false, i + 5))
    } else if matches_at(s, i, true_bytes()) && ends_keyword(s, i + 4) {
        Ok((true, i + 4))
    } else {
        Err(PdfErrorKind::Parse)
    }
}

/// Whether the bytes of `lit` stand in `b` at position `i`.
pub fn bytes_at(b: &[u8], i: usize, lit: &[u8]) -> (r: bool)
    ensures
        r == matches_at(b@, i as int, lit@),
{
    let n = b.len();
    if i > n || n - i < lit.len() {
        return false;
    }
    let mut k: usize = 0;
    while k < lit.len()
        invariant
            i + lit@.len() <= b@.len(),
            n == b@.len(),
            0 <= k <= lit@.len(),
            forall|q: int| 0 <= q < k ==> b@[i + q] == lit@[q],
        decreases lit@.len() - k,
    {
        if b[i + k] != lit[k] {
            assert(b@.subrange(i as int, i + lit@.len())[k as int] != lit@[k as int]);
            return false;
        }
        k = k + 1;
    }
    assert(b@.subrange(i as int, i + lit@.len()) =~= lit@);
    true
}

/// Reads a boolean at position `i` of `b`.
pub fn parse_bool_at(b: &[u8], i: usize) -> (r: Result<(bool, usize), PdfError>)
    ensures
        match r {
            Ok((v, e)) => spec_parse_bool(b@, i as int) == Ok::<(bool, int), PdfErrorKind>(
                (v, e as int),
            ) && i < e <= b@.len(),
            Err(err) => spec_parse_bool(b@, i as int) == Err::<(bool, int), PdfErrorKind>(
                err.kind,
            ),
        },
{
    let f: [u8; 5] = [0x66, 0x61, 0x6c, 0x73, 0x65];
    let t: [u8; 4] = [0x74, 0x72, 0x75, 0x65];
    assert(f@ =~= false_bytes());
    assert(t@ =~= true_bytes());
    if bytes_at(b, i, f.as_slice()) && (b.len() - i == 5 || is_whitespace(b[i + 5])) {
        Ok((false, i + 5))
    } else if bytes_at(b, i, t.as_slice()) && (b.len() - i == 4 || is_whitespace(b[i + 4])) {
        Ok((true, i + 4))
    } else {
        Err(PdfError::parse_error())
    }
}

/// A PDF boolean as a two-valued enum.
#[derive(Clone, Copy, Debug, PartialEq, Eq)]
pub enum PdfBoolean {
    PdfTrue,
    PdfFalse,
}

impl PdfBoolean {
    pub fn value(&self) -> (r: bool)
        ensures
            r == (*self == PdfBoolean::PdfTrue),
    {
        match self {
            PdfBoolean::PdfTrue => true,
            PdfBoolean::PdfFalse => false,
        }
    }

    pub fn from_bool(value: bool) -> (r: PdfBoolean)
        ensures
            (r == PdfBoolean::PdfTrue) == value,
    {
        if value {
            PdfBoolean::PdfTrue
        } else {
            PdfBoolean::PdfFalse
        }
    }

    /// The boolean whose whole text is exactly `true` or `false`.
    pub fn from_text(s: &[u8]) -> (r: Result<PdfBoolean, PdfError>)
        ensures
            s@ == true_bytes() ==> r == Ok::<PdfBoolean, PdfError>(PdfBoolean::PdfTrue),
            s@ == false_bytes() ==> r == Ok::<PdfBoolean, PdfError>(PdfBoolean::PdfFalse),
            s@ != true_bytes() && s@ != false_bytes() ==> (r matches Err(e) && e.kind
                == PdfErrorKind::Parse),
    {
        let f: [u8; 5] = [0x66, 0x61, 0x6c, 0x73, 0x65];
        let t: [u8; 4] = [0x74, 0x72, 0x75, 0x65];
        assert(f@ =~= false_bytes());
        assert(t@ =~= true_bytes());
        if s.len() == 4 && bytes_at(s, 0, t.as_slice()) {
            assert(s@ =~= s@.subrange(0, 4));
            Ok(PdfBoolean::PdfTrue)
        } else if s.len() == 5 && bytes_at(s, 0, f.as_slice()) {
            assert(s@ =~= s@.subrange(0, 5));
            Ok(PdfBoolean::PdfFalse)
        } else {
            assert(s@.len() == 4 ==> s@.subrange(0, 4) =~= s@);
            assert(s@.len() == 5 ==> s@.subrange(0, 5) =~= s@);
            Err(PdfError::parse_error())
        }
    }
}

impl std::str::FromStr for PdfBoolean {
    type Err = PdfError;

    fn from_str(value: &str) -> (r: Result<PdfBoolean, PdfError>)
        ensures
            value.spec_bytes() == true_bytes() ==> r == Ok::<PdfBoolean, PdfError>(PdfBoolean::PdfTrue),
            value.spec_bytes() == false_bytes() ==> r == Ok::<PdfBoolean, PdfError>(PdfBoolean::PdfFalse),
            value.spec_bytes() != true_bytes() && value.spec_bytes() != false_bytes() ==> (r matches Err(e)
                && e.kind == PdfErrorKind::Parse),
    {
        PdfBoolean::from_text(value.as_bytes())
    }
}

impl Parsable for bool {
    fn from_bytes(bytes: &[u8]) -> (r: Result<(bool, &[u8]), PdfError>)
        ensures
            match r {
                Ok((v, rest)) => reads(spec_parse_bool(bytes@, 0), bytes@, v, rest@),
                Err(err) => spec_parse_bool(bytes@, 0) == Err::<(bool, int), PdfErrorKind>(err.kind),
            },
    {
        match parse_bool_at(bytes, 0) {
            Ok((v, e)) => Ok((v, rest_from(bytes, e))),
            Err(err) => Err(err),
        }
    }
}

} // verus!
