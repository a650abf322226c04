use vstd::prelude::*;

verus! {

/// Failures raised by the stream codecs.
#[derive(Clone, Copy, PartialEq, Eq, Debug)]
pub enum FilterError {
    /// A byte that is neither a hex digit, whitespace nor the end marker.
    ASCIIHexDecode(u8),
    /// The input ended before the end-of-data marker.
    MissingEOD,
    /// A byte outside the base-85 alphabet.
    ASCII85Decode,
    /// The filter is named by PDF but has no codec here.
    NotImplemented,
}

/// The kinds of failure of this library.
#[derive(Clone, PartialEq, Debug)]
pub enum PdfErrorKind {
    Parse,
    WrongType,
    InvalidData,
    External(String),
    MissingStreamLength,
    Filter(FilterError),
}

/// An error of this library: its kind.
#[derive(Clone, PartialEq, Debug)]
pub struct PdfError {
    pub kind: PdfErrorKind,
}

impl PdfError {
    pub fn with_kind(kind: PdfErrorKind) -> (r: Self)
        ensures
            r.kind == kind,
    {
        PdfError { kind }
    }

    pub fn parse_error() -> (r: Self)
        ensures
            r.kind == PdfErrorKind::Parse,
    {
        PdfError { kind: PdfErrorKind::Parse }
    }
}

pub type PdfResult<T> = Result<T, PdfError>;

} // verus!
