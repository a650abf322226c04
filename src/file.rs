use vstd::prelude::*;

use crate::header::PdfHeader;
use crate::xref::PdfCrossRefTable;

verus! {

/// The body of a file: its indirect objects (not read at this level).
pub struct PdfBody {}

/// The trailer of a file (not read at this level).
pub struct PdfTrailer {}

/// A PDF file: header, body, cross-reference table and trailer.
pub struct PdfFile {
    pub header: PdfHeader,
    pub body: PdfBody,
    pub ref_table: PdfCrossRefTable,
    pub trailer: PdfTrailer,
}

} // verus!
