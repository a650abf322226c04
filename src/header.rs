use vstd::prelude::*;

use crate::boolean::{bytes_at, matches_at};
use crate::error::{PdfError, PdfErrorKind};
use crate::parsable::{reads, rest_from, Parsable};
use crate::scan::{find_eol, is_eol, past_eol, skip_whitespace_at, skip_ws};

verus! {

/// A PDF version: major and minor number.
#[derive(Clone, Copy, Debug, PartialEq, Eq)]
pub struct PdfVersion {
    minor: u8,
    major: u8,
}

/// The header of a PDF file: its version, and whether a binary marker line follows.
#[derive(Clone, Copy, Debug, PartialEq, Eq)]
pub struct PdfHeader {
    version: PdfVersion,
    binary_marker: bool,
}

/// The versions that a header may carry: 1.0 to 1.7, and 2.0.
pub open spec fn valid_version(major: u8, minor: u8) -> bool {
    (major == 1 && minor <= 7) || (major == 2 && minor == 0)
}

impl PdfHeader {
    /// A header always carries one of the accepted versions.
    #[verifier::type_invariant]
    spec fn valid(&self) -> bool {
        valid_version(self.version.major, self.version.minor)
    }
}

impl View for PdfVersion {
    type V = (u8, u8);

    /// (major, minor)
    closed spec fn view(&self) -> (u8, u8) {
        (self.major, self.minor)
    }
}

impl View for PdfHeader {
    type V = (u8, u8, bool);

    /// (major, minor, binary marker)
    closed spec fn view(&self) -> (u8, u8, bool) {
        (self.version.major, self.version.minor, self.binary_marker)
    }
}

impl PdfVersion {
    pub fn new(major: u8, minor: u8) -> (r: PdfVersion)
        ensures
            r@ == (major, minor),
    {
        PdfVersion { minor, major }
    }

    pub fn major(&self) -> (r: u8)
        ensures
            r == self@.0,
    {
        self.major
    }

    pub fn minor(&self) -> (r: u8)
        ensures
            r == self@.1,
    {
        self.minor
    }
}

pub open spec fn pdf_prefix() -> Seq<u8> {
    seq![0x25u8, 0x50, 0x44, 0x46, 0x2d]
}

/// The UTF-8 encoding of U+FFFD.
pub open spec fn replacement_char() -> Seq<u8> {
    seq![0xefu8, 0xbf, 0xbd]
}

/// `%PDF-<major>.<minor>` and a line end, then, with the binary marker, `%`, four
/// replacement characters and a line end. Versions are single digits.
pub open spec fn spec_header_bytes(major: u8, minor: u8, marker: bool) -> Seq<u8> {
    let first = pdf_prefix() + seq![(0x30 + major) as u8, 0x2eu8, (0x30 + minor) as u8, 0x0au8];
    if marker {
        first + seq![0x25u8] + replacement_char() + replacement_char() + replacement_char()
            + replacement_char() + seq![0x0au8]
    } else {
        first
    }
}

/// Whether a binary marker starts at `p`: `%` and four bytes of 0x80 or more.
pub open spec fn marker_at(s: Seq<u8>, p: int) -> bool {
    0 <= p && p + 4 < s.len() && s[p] == 0x25 && s[p + 1] >= 0x80 && s[p + 2] >= 0x80 && s[p + 3]
        >= 0x80 && s[p + 4] >= 0x80
}

/// A header read at the start of `s`: `%PDF-`, a digit, `.`, a digit, whitespace, and the
/// binary marker line if one follows.
pub open spec fn spec_parse_header(s: Seq<u8>, i: int) -> Result<((u8, u8, bool), int), PdfErrorKind> {
    if !matches_at(s, i, pdf_prefix()) || s.len() < i + 8 || !(0x30 <= s[i + 5] <= 0x39) || s[i + 6]
        != 0x2e || !(0x30 <= s[i + 7] <= 0x39) {
        Err(PdfErrorKind::Parse)
    } else {
        let major = (s[i + 5] - 0x30) as u8;
        let minor = (s[i + 7] - 0x30) as u8;
        let p = skip_ws(s, i + 8);
        let marker = marker_at(s, p);
        let e = if marker {
            past_eol(s, p)
        } else {
            p
        };
        if !valid_version(major, minor) {
            Err(PdfErrorKind::Parse)
        } else {
            Ok(((major, minor, marker), e))
        }
    }
}

impl PdfHeader {
    /// A header of the given version; only the versions of `valid_version` are accepted.
    pub fn with_verion(version: PdfVersion, binary_marker: bool) -> (r: Result<PdfHeader, PdfError>)
        ensures
            match r {
                Ok(h) => valid_version(version@.0, version@.1) && h@ == (
                    version@.0,
                    version@.1,
                    binary_marker,
                ),
                Err(e) => !valid_version(version@.0, version@.1) && e.kind == PdfErrorKind::Parse,
            },
    {
        if (version.major == 1 && version.minor <= 7) || (version.major == 2 && version.minor == 0) {
            Ok(PdfHeader { version, binary_marker })
        } else {
            Err(PdfError::parse_error())
        }
    }

    pub fn version(&self) -> (r: PdfVersion)
        ensures
            r@ == (self@.0, self@.1),
            valid_version(r@.0, r@.1),
    {
        proof {
            use_type_invariant(self);
        }
        self.version
    }

    pub fn binary_marker(&self) -> (r: bool)
        ensures
            r == self@.2,
    {
        self.binary_marker
    }

    /// Reads a header at position `i` of `b`.
    pub fn parse_at(b: &[u8], i: usize) -> (r: Result<(PdfHeader, usize), PdfError>)
        requires
            i <= b@.len(),
        ensures
            match r {
                Ok((h, e)) => spec_parse_header(b@, i as int) == Ok::<((u8, u8, bool), int), PdfErrorKind>(
                    (h@, e as int),
                ) && i < e <= b@.len(),
                Err(err) => spec_parse_header(b@, i as int) == Err::<
                    ((u8, u8, bool), int),
                    PdfErrorKind,
                >(err.kind),
            },
    {
        let n = b.len();
        let prefix: [u8; 5] = [0x25, 0x50, 0x44, 0x46, 0x2d];
        assert(prefix@ =~= pdf_prefix());
        if !bytes_at(b, i, prefix.as_slice()) || n - i < 8 || !(0x30 <= b[i + 5] && b[i + 5] <= 0x39)
            || b[i + 6] != 0x2e || !(0x30 <= b[i + 7] && b[i + 7] <= 0x39) {
            return Err(PdfError::parse_error());
        }
        let major = b[i + 5] - 0x30;
        let minor = b[i + 7] - 0x30;
        let p = skip_whitespace_at(b, i + 8);
        let marker = n - p > 4 && b[p] == 0x25 && b[p + 1] >= 0x80 && b[p + 2] >= 0x80 && b[p + 3]
            >= 0x80 && b[p + 4] >= 0x80;
        let e = if marker {
            let mut j: usize = p;
            while j < n && !is_eol(b[j])
                invariant
                    p <= j <= n,
                    n == b@.len(),
                    find_eol(b@, j as int) == find_eol(b@, p as int),
                decreases n - j,
            {
                j = j + 1;
            }
            if j < n && n - j > 1 && b[j] == 0x0d && b[j + 1] == 0x0a {
                j + 2
            } else if j < n {
                j + 1
            } else {
                j
            }
        } else {
            p
        };
        let version = PdfVersion { minor, major };
        match PdfHeader::with_verion(version, marker) {
            Ok(h) => Ok((h, e)),
            Err(err) => Err(err),
        }
    }

    /// The header as it is written at the start of a file.
    pub fn to_bytes(&self) -> (r: Vec<u8>)
        ensures
            r@ == spec_header_bytes(self@.0, self@.1, self@.2),
    {
        proof {
            use_type_invariant(self);
        }
        let mut out: Vec<u8> = Vec::new();
        out.push(0x25);
        out.push(0x50);
        out.push(0x44);
        out.push(0x46);
        out.push(0x2d);
        out.push(0x30 + self.version.major);
        out.push(0x2e);
        out.push(0x30 + self.version.minor);
        out.push(0x0a);
        if self.binary_marker {
            out.push(0x25);
            out.push(0xef);
            out.push(0xbf);
            out.push(0xbd);
            out.push(0xef);
            out.push(0xbf);
            out.push(0xbd);
            out.push(0xef);
            out.push(0xbf);
            out.push(0xbd);
            out.push(0xef);
            out.push(0xbf);
            out.push(0xbd);
            out.push(0x0a);
            assert(out@ =~= spec_header_bytes(self@.0, self@.1, true));
        } else {
            assert(out@ =~= spec_header_bytes(self@.0, self@.1, false));
        }
        out
    }
}

impl Parsable for PdfHeader {
    fn from_bytes(bytes: &[u8]) -> (r: Result<(PdfHeader, &[u8]), PdfError>)
        ensures
            match r {
                Ok((v, rest)) => reads(spec_parse_header(bytes@, 0), bytes@, v@, rest@),
                Err(err) => spec_parse_header(bytes@, 0) == Err::<((u8, u8, bool), int), PdfErrorKind>(err.kind),
            },
    {
        match PdfHeader::parse_at(bytes, 0) {
            Ok((v, e)) => Ok((v, rest_from(bytes, e))),
            Err(err) => Err(err),
        }
    }
}

} // verus!
