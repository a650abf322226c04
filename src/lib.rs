//! The object layer of PDF files: parsers for primitive and composite objects, indirect
//! objects and streams, the file header and the cross-reference table, and the ASCII
//! stream codecs.
pub mod ascii85;
pub mod ascii_hex;
pub mod boolean;
pub mod error;
pub mod file;
pub mod filter;
pub mod header;
pub mod name;
pub mod numeric;
pub mod object;
pub mod parsable;
pub mod pipeline;
pub mod scan;
pub mod string;
pub mod xref;

pub use boolean::PdfBoolean;
pub use error::{FilterError, PdfError, PdfErrorKind, PdfResult};
pub use file::{PdfBody, PdfFile, PdfTrailer};
pub use filter::{collect, Decode, Encode, Filter, NotImplementedSource};
pub use ascii85::{DecodeASCII85, EncodeASCII85};
pub use ascii_hex::{DecodeASCIIHex, EncodeASCIIHex};
pub use pipeline::{next_non_whitespace, ByteSource, BytesSource};
pub use header::{PdfHeader, PdfVersion};
pub use name::PdfName;
pub use numeric::{PdfNumeric, PdfReal};
pub use object::{
    DictEntry, IndirectData, PdfArray, PdfDict, PdfNull, PdfObject, PdfObjectKind, PdfStream,
};
pub use parsable::{parse, Parsable};
pub use scan::{is_regular, next_eol, strip_whitespace};
pub use string::PdfString;
pub use xref::{
    PdfCrossRefTable, PdfCrossRefTableEntry, PdfCrossRefTableSection, PdfCrossRefTableSubsection,
    PdfCrossRefTableSubsectionHeader,
};
