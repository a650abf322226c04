use vstd::prelude::*;

use crate::ascii85::{
    a85_encoder_model, a85_stream, ascii85_decode, ascii85_encode, drop_ws,
    lemma_a85_chain, lemma_ascii85_round_trip, spec_ascii85_decode, spec_ascii85_encode,
    DecodeASCII85, EncodeASCII85,
};
use crate::ascii_hex::{
    ascii_hex_decode, ascii_hex_encode, hex_encoder_model, hex_stream, lemma_ascii_hex_round_trip,
    lemma_hex_chain,
    spec_ascii_hex_decode, spec_ascii_hex_encode, DecodeASCIIHex, EncodeASCIIHex,
};
use crate::pipeline::{ByteSource, SourceModel};
use crate::error::{FilterError, PdfError, PdfErrorKind};
use crate::name::PdfName;
use crate::object::PdfDict;
use crate::scan::bytes_equal;
use vstd::string::StringSliceAdditionalSpecFns;

verus! {

/// The stream filters that PDF names.
#[derive(Clone, Copy, Debug, PartialEq, Eq)]
pub enum Filter {
    ASCIIHex,
    ASCII85,
    LZW,
    Flate,
    RunLength,
    CCITTFax,
    JBIG2,
    DCT,
    JPX,
    Crypt,
}

/// The name of a filter as it stands in a PDF file.
pub open spec fn filter_name(f: Filter) -> Seq<u8> {
    match f {
        Filter::ASCIIHex => seq![0x41u8, 0x53, 0x43, 0x49, 0x49, 0x48, 0x65, 0x78, 0x44, 0x65, 0x63, 0x6f, 0x64, 0x65],
        Filter::ASCII85 => seq![0x41u8, 0x53, 0x43, 0x49, 0x49, 0x38, 0x35, 0x44, 0x65, 0x63, 0x6f, 0x64, 0x65],
        Filter::LZW => seq![0x4cu8, 0x5a, 0x57, 0x44, 0x65, 0x63, 0x6f, 0x64, 0x65],
        Filter::Flate => seq![0x46u8, 0x6c, 0x61, 0x74, 0x65, 0x44, 0x65, 0x63, 0x6f, 0x64, 0x65],
        Filter::RunLength => seq![0x52u8, 0x75, 0x6e, 0x4c, 0x65, 0x6e, 0x67, 0x74, 0x68, 0x44, 0x65, 0x63, 0x6f, 0x64, 0x65],
        Filter::CCITTFax => seq![0x43u8, 0x43, 0x49, 0x54, 0x54, 0x46, 0x61, 0x78, 0x44, 0x65, 0x63, 0x6f, 0x64, 0x65],
        Filter::JBIG2 => seq![0x4au8, 0x42, 0x49, 0x47, 0x32, 0x44, 0x65, 0x63, 0x6f, 0x64, 0x65],
        Filter::DCT => seq![0x44u8, 0x43, 0x54, 0x44, 0x65, 0x63, 0x6f, 0x64, 0x65],
        Filter::JPX => seq![0x4au8, 0x50, 0x58, 0x44, 0x65, 0x63, 0x6f, 0x64, 0x65],
        Filter::Crypt => seq![0x43u8, 0x72, 0x79, 0x70, 0x74, 0x44, 0x65, 0x63, 0x6f, 0x64, 0x65],
    }
}

/// The parameter names that a filter recognises.
pub open spec fn filter_params(f: Filter) -> Seq<Seq<u8>> {
    match f {
        Filter::ASCIIHex => Seq::empty(),
        Filter::ASCII85 => Seq::empty(),
        Filter::LZW => seq![seq![0x50u8, 0x72, 0x65, 0x64, 0x69, 0x63, 0x74, 0x6f, 0x72], seq![0x43u8, 0x6f, 0x6c, 0x6f, 0x72, 0x73], seq![0x42u8, 0x69, 0x74, 0x73, 0x50, 0x65, 0x72, 0x43, 0x6f, 0x6d, 0x70, 0x6f, 0x6e, 0x65, 0x6e, 0x74], seq![0x43u8, 0x6f, 0x6c, 0x75, 0x6d, 0x6e, 0x73], seq![0x45u8, 0x61, 0x72, 0x6c, 0x79, 0x43, 0x68, 0x61, 0x6e, 0x67, 0x65]],
        Filter::Flate => seq![seq![0x50u8, 0x72, 0x65, 0x64, 0x69, 0x63, 0x74, 0x6f, 0x72], seq![0x43u8, 0x6f, 0x6c, 0x6f, 0x72, 0x73], seq![0x42u8, 0x69, 0x74, 0x73, 0x50, 0x65, 0x72, 0x43, 0x6f, 0x6d, 0x70, 0x6f, 0x6e, 0x65, 0x6e, 0x74], seq![0x43u8, 0x6f, 0x6c, 0x75, 0x6d, 0x6e, 0x73]],
        Filter::RunLength => Seq::empty(),
        Filter::CCITTFax => seq![seq![0x4bu8], seq![0x45u8, 0x6e, 0x64, 0x4f, 0x66, 0x4c, 0x69, 0x6e, 0x65], seq![0x45u8, 0x6e, 0x63, 0x6f, 0x64, 0x65, 0x42, 0x79, 0x74, 0x65, 0x41, 0x6c, 0x69, 0x67, 0x6e], seq![0x43u8, 0x6f, 0x6c, 0x75, 0x6d, 0x6e, 0x73], seq![0x52u8, 0x6f, 0x77, 0x73], seq![0x45u8, 0x6e, 0x64, 0x4f, 0x66, 0x42, 0x6c, 0x6f, 0x63, 0x6b], seq![0x42u8, 0x6c, 0x61, 0x63, 0x6b, 0x49, 0x73, 0x31], seq![0x44u8, 0x61, 0x6d, 0x61, 0x67, 0x65, 0x64, 0x52, 0x6f, 0x77, 0x73, 0x42, 0x65, 0x66, 0x6f, 0x72, 0x65, 0x45, 0x72, 0x72, 0x6f, 0x72]],
        Filter::JBIG2 => seq![seq![0x4au8, 0x42, 0x49, 0x47, 0x32, 0x47, 0x6c, 0x6f, 0x62, 0x61, 0x6c, 0x73]],
        Filter::DCT => seq![seq![0x43u8, 0x6f, 0x6c, 0x6f, 0x72, 0x54, 0x72, 0x61, 0x6e, 0x73, 0x66, 0x6f, 0x72, 0x6d]],
        Filter::JPX => Seq::empty(),
        Filter::Crypt => seq![seq![0x54u8, 0x79, 0x70, 0x65], seq![0x4eu8, 0x61, 0x6d, 0x65]],
    }
}

/// Whether a filter's codec is implemented.
pub open spec fn is_implemented(f: Filter) -> bool {
    f == Filter::ASCIIHex || f == Filter::ASCII85
}

pub open spec fn spec_filter_encode(f: Filter, s: Seq<u8>) -> Seq<u8> {
    if f == Filter::ASCIIHex {
        spec_ascii_hex_encode(s)
    } else {
        spec_ascii85_encode(s)
    }
}

pub open spec fn spec_filter_decode(f: Filter, s: Seq<u8>) -> Result<Seq<u8>, FilterError> {
    if f == Filter::ASCIIHex {
        spec_ascii_hex_decode(s)
    } else {
        spec_ascii85_decode(s)
    }
}

/// The bytes of a name, from its characters.
fn name_of(bytes: &[u8]) -> (r: PdfName)
    ensures
        r@ == bytes@,
{
    PdfName::from_raw_bytes(bytes)
}

impl Filter {
    /// The name under which the filter stands in a PDF file.
    pub fn name(&self) -> (r: PdfName)
        ensures
            r@ == filter_name(*self),
    {
        match self {
            Filter::ASCIIHex => {
                let a: [u8; 14] = [0x41, 0x53, 0x43, 0x49, 0x49, 0x48, 0x65, 0x78, 0x44, 0x65, 0x63, 0x6f, 0x64, 0x65];
                assert(a@ =~= filter_name(Filter::ASCIIHex));
                name_of(a.as_slice())
            },
            Filter::ASCII85 => {
                let a: [u8; 13] = [0x41, 0x53, 0x43, 0x49, 0x49, 0x38, 0x35, 0x44, 0x65, 0x63, 0x6f, 0x64, 0x65];
                assert(a@ =~= filter_name(Filter::ASCII85));
                name_of(a.as_slice())
            },
            Filter::LZW => {
                let a: [u8; 9] = [0x4c, 0x5a, 0x57, 0x44, 0x65, 0x63, 0x6f, 0x64, 0x65];
                assert(a@ =~= filter_name(Filter::LZW));
                name_of(a.as_slice())
            },
            Filter::Flate => {
                let a: [u8; 11] = [0x46, 0x6c, 0x61, 0x74, 0x65, 0x44, 0x65, 0x63, 0x6f, 0x64, 0x65];
                assert(a@ =~= filter_name(Filter::Flate));
                name_of(a.as_slice())
            },
            Filter::RunLength => {
                let a: [u8; 15] = [0x52, 0x75, 0x6e, 0x4c, 0x65, 0x6e, 0x67, 0x74, 0x68, 0x44, 0x65, 0x63, 0x6f, 0x64, 0x65];
                assert(a@ =~= filter_name(Filter::RunLength));
                name_of(a.as_slice())
            },
            Filter::CCITTFax => {
                let a: [u8; 14] = [0x43, 0x43, 0x49, 0x54, 0x54, 0x46, 0x61, 0x78, 0x44, 0x65, 0x63, 0x6f, 0x64, 0x65];
                assert(a@ =~= filter_name(Filter::CCITTFax));
                name_of(a.as_slice())
            },
            Filter::JBIG2 => {
                let a: [u8; 11] = [0x4a, 0x42, 0x49, 0x47, 0x32, 0x44, 0x65, 0x63, 0x6f, 0x64, 0x65];
                assert(a@ =~= filter_name(Filter::JBIG2));
                name_of(a.as_slice())
            },
            Filter::DCT => {
                let a: [u8; 9] = [0x44, 0x43, 0x54, 0x44, 0x65, 0x63, 0x6f, 0x64, 0x65];
                assert(a@ =~= filter_name(Filter::DCT));
                name_of(a.as_slice())
            },
            Filter::JPX => {
                let a: [u8; 9] = [0x4a, 0x50, 0x58, 0x44, 0x65, 0x63, 0x6f, 0x64, 0x65];
                assert(a@ =~= filter_name(Filter::JPX));
                name_of(a.as_slice())
            },
            Filter::Crypt => {
                let a: [u8; 11] = [0x43, 0x72, 0x79, 0x70, 0x74, 0x44, 0x65, 0x63, 0x6f, 0x64, 0x65];
                assert(a@ =~= filter_name(Filter::Crypt));
                name_of(a.as_slice())
            },
        }
    }

    /// The filter whose name has the bytes `bytes`.
    pub fn from_name_bytes(bytes: &[u8]) -> (r: Result<Filter, PdfError>)
        ensures
            match r {
                Ok(f) => filter_name(f) == bytes@,
                Err(e) => e.kind == PdfErrorKind::InvalidData && forall|f: Filter| filter_name(f) != bytes@,
            },
    {
        let a: [u8; 14] = [0x41, 0x53, 0x43, 0x49, 0x49, 0x48, 0x65, 0x78, 0x44, 0x65, 0x63, 0x6f, 0x64, 0x65];
        assert(a@ =~= filter_name(Filter::ASCIIHex));
        if bytes_equal(bytes, a.as_slice()) {
            return Ok(Filter::ASCIIHex);
        }
        let a: [u8; 13] = [0x41, 0x53, 0x43, 0x49, 0x49, 0x38, 0x35, 0x44, 0x65, 0x63, 0x6f, 0x64, 0x65];
        assert(a@ =~= filter_name(Filter::ASCII85));
        if bytes_equal(bytes, a.as_slice()) {
            return Ok(Filter::ASCII85);
        }
        let a: [u8; 9] = [0x4c, 0x5a, 0x57, 0x44, 0x65, 0x63, 0x6f, 0x64, 0x65];
        assert(a@ =~= filter_name(Filter::LZW));
        if bytes_equal(bytes, a.as_slice()) {
            return Ok(Filter::LZW);
        }
        let a: [u8; 11] = [0x46, 0x6c, 0x61, 0x74, 0x65, 0x44, 0x65, 0x63, 0x6f, 0x64, 0x65];
        assert(a@ =~= filter_name(Filter::Flate));
        if bytes_equal(bytes, a.as_slice()) {
            return Ok(Filter::Flate);
        }
        let a: [u8; 15] = [0x52, 0x75, 0x6e, 0x4c, 0x65, 0x6e, 0x67, 0x74, 0x68, 0x44, 0x65, 0x63, 0x6f, 0x64, 0x65];
        assert(a@ =~= filter_name(Filter::RunLength));
        if bytes_equal(bytes, a.as_slice()) {
            return Ok(Filter::RunLength);
        }
        let a: [u8; 14] = [0x43, 0x43, 0x49, 0x54, 0x54, 0x46, 0x61, 0x78, 0x44, 0x65, 0x63, 0x6f, 0x64, 0x65];
        assert(a@ =~= filter_name(Filter::CCITTFax));
        if bytes_equal(bytes, a.as_slice()) {
            return Ok(Filter::CCITTFax);
        }
        let a: [u8; 11] = [0x4a, 0x42, 0x49, 0x47, 0x32, 0x44, 0x65, 0x63, 0x6f, 0x64, 0x65];
        assert(a@ =~= filter_name(Filter::JBIG2));
        if bytes_equal(bytes, a.as_slice()) {
            return Ok(Filter::JBIG2);
        }
        let a: [u8; 9] = [0x44, 0x43, 0x54, 0x44, 0x65, 0x63, 0x6f, 0x64, 0x65];
        assert(a@ =~= filter_name(Filter::DCT));
        if bytes_equal(bytes, a.as_slice()) {
            return Ok(Filter::DCT);
        }
        let a: [u8; 9] = [0x4a, 0x50, 0x58, 0x44, 0x65, 0x63, 0x6f, 0x64, 0x65];
        assert(a@ =~= filter_name(Filter::JPX));
        if bytes_equal(bytes, a.as_slice()) {
            return Ok(Filter::JPX);
        }
        let a: [u8; 11] = [0x43, 0x72, 0x79, 0x70, 0x74, 0x44, 0x65, 0x63, 0x6f, 0x64, 0x65];
        assert(a@ =~= filter_name(Filter::Crypt));
        if bytes_equal(bytes, a.as_slice()) {
            return Ok(Filter::Crypt);
        }
        assert forall|f: Filter| filter_name(f) != bytes@ by {
            match f {
                Filter::ASCIIHex => {},
                Filter::ASCII85 => {},
                Filter::LZW => {},
                Filter::Flate => {},
                Filter::RunLength => {},
                Filter::CCITTFax => {},
                Filter::JBIG2 => {},
                Filter::DCT => {},
                Filter::JPX => {},
                Filter::Crypt => {},
            }
        }
        Err(PdfError::with_kind(PdfErrorKind::InvalidData))
    }

    /// The filter named `name`.
    pub fn from_name(name: &PdfName) -> (r: Result<Filter, PdfError>)
        ensures
            match r {
                Ok(f) => filter_name(f) == name@,
                Err(e) => e.kind == PdfErrorKind::InvalidData && forall|f: Filter| filter_name(f) != name@,
            },
    {
        Filter::from_name_bytes(name.bytes())
    }

    /// The filter whose name is the text `s`.
    pub fn from_text(s: &str) -> (r: Result<Filter, PdfError>)
        ensures
            match r {
                Ok(f) => filter_name(f) == s.spec_bytes(),
                Err(e) => e.kind == PdfErrorKind::InvalidData && forall|f: Filter| filter_name(f) != s.spec_bytes(),
            },
    {
        Filter::from_name_bytes(s.as_bytes())
    }

    /// The names of the parameters that the filter recognises.
    pub fn valid_params(&self) -> (r: Vec<PdfName>)
        ensures
            r@.len() == filter_params(*self).len(),
            forall|k: int| 0 <= k < r@.len() ==> #[trigger] r@[k]@ == filter_params(*self)[k],
    {
        let mut r: Vec<PdfName> = Vec::new();
        match self {
            Filter::ASCIIHex => {
            },
            Filter::ASCII85 => {
            },
            Filter::LZW => {
                let a: [u8; 9] = [0x50, 0x72, 0x65, 0x64, 0x69, 0x63, 0x74, 0x6f, 0x72];
                r.push(name_of(a.as_slice()));
                let a: [u8; 6] = [0x43, 0x6f, 0x6c, 0x6f, 0x72, 0x73];
                r.push(name_of(a.as_slice()));
                let a: [u8; 16] = [0x42, 0x69, 0x74, 0x73, 0x50, 0x65, 0x72, 0x43, 0x6f, 0x6d, 0x70, 0x6f, 0x6e, 0x65, 0x6e, 0x74];
                r.push(name_of(a.as_slice()));
                let a: [u8; 7] = [0x43, 0x6f, 0x6c, 0x75, 0x6d, 0x6e, 0x73];
                r.push(name_of(a.as_slice()));
                let a: [u8; 11] = [0x45, 0x61, 0x72, 0x6c, 0x79, 0x43, 0x68, 0x61, 0x6e, 0x67, 0x65];
                r.push(name_of(a.as_slice()));
                assert(r@.len() == filter_params(Filter::LZW).len());
                assert forall|k: int| 0 <= k < r@.len() implies #[trigger] r@[k]@ == filter_params(Filter::LZW)[k] by {
                    assert(filter_params(Filter::LZW)[k] =~= r@[k]@);
                }
            },
            Filter::Flate => {
                let a: [u8; 9] = [0x50, 0x72, 0x65, 0x64, 0x69, 0x63, 0x74, 0x6f, 0x72];
                r.push(name_of(a.as_slice()));
                let a: [u8; 6] = [0x43, 0x6f, 0x6c, 0x6f, 0x72, 0x73];
                r.push(name_of(a.as_slice()));
                let a: [u8; 16] = [0x42, 0x69, 0x74, 0x73, 0x50, 0x65, 0x72, 0x43, 0x6f, 0x6d, 0x70, 0x6f, 0x6e, 0x65, 0x6e, 0x74];
                r.push(name_of(a.as_slice()));
                let a: [u8; 7] = [0x43, 0x6f, 0x6c, 0x75, 0x6d, 0x6e, 0x73];
                r.push(name_of(a.as_slice()));
                assert(r@.len() == filter_params(Filter::Flate).len());
                assert forall|k: int| 0 <= k < r@.len() implies #[trigger] r@[k]@ == filter_params(Filter::Flate)[k] by {
                    assert(filter_params(Filter::Flate)[k] =~= r@[k]@);
                }
            },
            Filter::RunLength => {
            },
            Filter::CCITTFax => {
                let a: [u8; 1] = [0x4b];
                r.push(name_of(a.as_slice()));
                let a: [u8; 9] = [0x45, 0x6e, 0x64, 0x4f, 0x66, 0x4c, 0x69, 0x6e, 0x65];
                r.push(name_of(a.as_slice()));
                let a: [u8; 15] = [0x45, 0x6e, 0x63, 0x6f, 0x64, 0x65, 0x42, 0x79, 0x74, 0x65, 0x41, 0x6c, 0x69, 0x67, 0x6e];
                r.push(name_of(a.as_slice()));
                let a: [u8; 7] = [0x43, 0x6f, 0x6c, 0x75, 0x6d, 0x6e, 0x73];
                r.push(name_of(a.as_slice()));
                let a: [u8; 4] = [0x52, 0x6f, 0x77, 0x73];
                r.push(name_of(a.as_slice()));
                let a: [u8; 10] = [0x45, 0x6e, 0x64, 0x4f, 0x66, 0x42, 0x6c, 0x6f, 0x63, 0x6b];
                r.push(name_of(a.as_slice()));
                let a: [u8; 8] = [0x42, 0x6c, 0x61, 0x63, 0x6b, 0x49, 0x73, 0x31];
                r.push(name_of(a.as_slice()));
                let a: [u8; 22] = [0x44, 0x61, 0x6d, 0x61, 0x67, 0x65, 0x64, 0x52, 0x6f, 0x77, 0x73, 0x42, 0x65, 0x66, 0x6f, 0x72, 0x65, 0x45, 0x72, 0x72, 0x6f, 0x72];
                r.push(name_of(a.as_slice()));
                assert(r@.len() == filter_params(Filter::CCITTFax).len());
                assert forall|k: int| 0 <= k < r@.len() implies #[trigger] r@[k]@ == filter_params(Filter::CCITTFax)[k] by {
                    assert(filter_params(Filter::CCITTFax)[k] =~= r@[k]@);
                }
            },
            Filter::JBIG2 => {
                let a: [u8; 12] = [0x4a, 0x42, 0x49, 0x47, 0x32, 0x47, 0x6c, 0x6f, 0x62, 0x61, 0x6c, 0x73];
                r.push(name_of(a.as_slice()));
                assert(r@.len() == filter_params(Filter::JBIG2).len());
                assert forall|k: int| 0 <= k < r@.len() implies #[trigger] r@[k]@ == filter_params(Filter::JBIG2)[k] by {
                    assert(filter_params(Filter::JBIG2)[k] =~= r@[k]@);
                }
            },
            Filter::DCT => {
                let a: [u8; 14] = [0x43, 0x6f, 0x6c, 0x6f, 0x72, 0x54, 0x72, 0x61, 0x6e, 0x73, 0x66, 0x6f, 0x72, 0x6d];
                r.push(name_of(a.as_slice()));
                assert(r@.len() == filter_params(Filter::DCT).len());
                assert forall|k: int| 0 <= k < r@.len() implies #[trigger] r@[k]@ == filter_params(Filter::DCT)[k] by {
                    assert(filter_params(Filter::DCT)[k] =~= r@[k]@);
                }
            },
            Filter::JPX => {
            },
            Filter::Crypt => {
                let a: [u8; 4] = [0x54, 0x79, 0x70, 0x65];
                r.push(name_of(a.as_slice()));
                let a: [u8; 4] = [0x4e, 0x61, 0x6d, 0x65];
                r.push(name_of(a.as_slice()));
                assert(r@.len() == filter_params(Filter::Crypt).len());
                assert forall|k: int| 0 <= k < r@.len() implies #[trigger] r@[k]@ == filter_params(Filter::Crypt)[k] by {
                    assert(filter_params(Filter::Crypt)[k] =~= r@[k]@);
                }
            },
        }
        r
    }

    /// An encoder with this filter that pulls from `source`. Only the ASCII codecs are
    /// implemented; the others give a source whose first pull fails with
    /// `NotImplemented`.
    pub fn encode<S: ByteSource>(&self, source: S, _params: &PdfDict) -> (r: Encode<S>)
        requires
            source.inv(),
        ensures
            r.inv(),
            r.rest() == stream_encode_model(*self, source.rest()),
    {
        match self {
            Filter::ASCIIHex => Encode::ASCIIHex(EncodeASCIIHex::new(source)),
            Filter::ASCII85 => Encode::ASCII85(EncodeASCII85::new(source)),
            _ => Encode::NotImplemented(NotImplementedSource::new()),
        }
    }

    /// A decoder with this filter that pulls from `source`. Only the ASCII codecs are
    /// implemented; the others give a source whose first pull fails with
    /// `NotImplemented`.
    pub fn decode<S: ByteSource>(&self, source: S, _params: &PdfDict) -> (r: Decode<S>)
        requires
            source.inv(),
        ensures
            r.inv(),
            r.rest() == stream_decode_model(*self, source.rest()),
    {
        match self {
            Filter::ASCIIHex => Decode::ASCIIHex(DecodeASCIIHex::new(source)),
            Filter::ASCII85 => Decode::ASCII85(DecodeASCII85::new(source)),
            _ => Decode::NotImplemented(NotImplementedSource::new()),
        }
    }

    /// Encodes `bytes` with this filter; the filters other than the ASCII codecs fail
    /// with `NotImplemented`.
    pub fn encode_bytes(&self, bytes: &[u8], _params: &PdfDict) -> (r: Result<Vec<u8>, PdfError>)
        ensures
            match r {
                Ok(v) => is_implemented(*self) && v@ == spec_filter_encode(*self, bytes@),
                Err(e) => !is_implemented(*self) && e.kind == PdfErrorKind::Filter(
                    FilterError::NotImplemented,
                ),
            },
    {
        match self {
            Filter::ASCIIHex => Ok(ascii_hex_encode(bytes)),
            Filter::ASCII85 => Ok(ascii85_encode(bytes)),
            _ => Err(PdfError::with_kind(PdfErrorKind::Filter(FilterError::NotImplemented))),
        }
    }

    /// Decodes `bytes` with this filter; the filters other than the ASCII codecs fail
    /// with `NotImplemented`.
    pub fn decode_bytes(&self, bytes: &[u8], _params: &PdfDict) -> (r: Result<Vec<u8>, PdfError>)
        ensures
            !is_implemented(*self) ==> (r matches Err(e) && e.kind == PdfErrorKind::Filter(
                FilterError::NotImplemented,
            )),
            is_implemented(*self) ==> match r {
                Ok(v) => spec_filter_decode(*self, bytes@) == Ok::<Seq<u8>, FilterError>(v@),
                Err(e) => spec_filter_decode(*self, bytes@) matches Err(fe) && e.kind == PdfErrorKind::Filter(fe),
            },
    {
        match self {
            Filter::ASCIIHex => ascii_hex_decode(bytes),
            Filter::ASCII85 => ascii85_decode(bytes),
            _ => Err(PdfError::with_kind(PdfErrorKind::Filter(FilterError::NotImplemented))),
        }
    }
}

/// What a codec of a filter that is not implemented gives: nothing but the failure.
pub open spec fn not_implemented_model() -> SourceModel {
    (Seq::empty(), Some(PdfErrorKind::Filter(FilterError::NotImplemented)))
}

/// The codec of a filter that is not implemented: its first pull fails.
pub struct NotImplementedSource {
    failed: bool,
}

impl NotImplementedSource {
    pub fn new() -> (r: NotImplementedSource)
        ensures
            r.inv(),
            r.rest() == not_implemented_model(),
    {
        NotImplementedSource { failed: false }
    }
}

impl ByteSource for NotImplementedSource {
    closed spec fn rest(&self) -> SourceModel {
        if self.failed {
            (Seq::empty(), None)
        } else {
            not_implemented_model()
        }
    }

    closed spec fn inv(&self) -> bool {
        true
    }

    fn next_byte(&mut self) -> (r: Option<Result<u8, PdfError>>) {
        if self.failed {
            None
        } else {
            self.failed = true;
            Some(Err(PdfError::with_kind(PdfErrorKind::Filter(FilterError::NotImplemented))))
        }
    }
}

/// What an encoder with filter `f` gives over a source whose model is `m`.
pub open spec fn stream_encode_model(f: Filter, m: SourceModel) -> SourceModel {
    if f == Filter::ASCIIHex {
        hex_encoder_model(None, m)
    } else if f == Filter::ASCII85 {
        a85_encoder_model(m)
    } else {
        not_implemented_model()
    }
}

/// What a decoder with filter `f` gives over a source whose model is `m`.
pub open spec fn stream_decode_model(f: Filter, m: SourceModel) -> SourceModel {
    if f == Filter::ASCIIHex {
        hex_stream(drop_ws(m.0), m.1)
    } else if f == Filter::ASCII85 {
        a85_stream(drop_ws(m.0), m.1)
    } else {
        not_implemented_model()
    }
}

/// The encoder of a filter.
pub enum Encode<S> {
    ASCIIHex(EncodeASCIIHex<S>),
    ASCII85(EncodeASCII85<S>),
    NotImplemented(NotImplementedSource),
}

/// The decoder of a filter.
pub enum Decode<S> {
    ASCIIHex(DecodeASCIIHex<S>),
    ASCII85(DecodeASCII85<S>),
    NotImplemented(NotImplementedSource),
}

impl<S: ByteSource> ByteSource for Encode<S> {
    open spec fn rest(&self) -> SourceModel {
        match self {
            Encode::ASCIIHex(e) => e.rest(),
            Encode::ASCII85(e) => e.rest(),
            Encode::NotImplemented(e) => e.rest(),
        }
    }

    open spec fn inv(&self) -> bool {
        match self {
            Encode::ASCIIHex(e) => e.inv(),
            Encode::ASCII85(e) => e.inv(),
            Encode::NotImplemented(e) => e.inv(),
        }
    }

    fn next_byte(&mut self) -> (r: Option<Result<u8, PdfError>>) {
        match self {
            Encode::ASCIIHex(e) => e.next_byte(),
            Encode::ASCII85(e) => e.next_byte(),
            Encode::NotImplemented(e) => e.next_byte(),
        }
    }
}

impl<S: ByteSource> ByteSource for Decode<S> {
    open spec fn rest(&self) -> SourceModel {
        match self {
            Decode::ASCIIHex(d) => d.rest(),
            Decode::ASCII85(d) => d.rest(),
            Decode::NotImplemented(d) => d.rest(),
        }
    }

    open spec fn inv(&self) -> bool {
        match self {
            Decode::ASCIIHex(d) => d.inv(),
            Decode::ASCII85(d) => d.inv(),
            Decode::NotImplemented(d) => d.inv(),
        }
    }

    fn next_byte(&mut self) -> (r: Option<Result<u8, PdfError>>) {
        match self {
            Decode::ASCIIHex(d) => d.next_byte(),
            Decode::ASCII85(d) => d.next_byte(),
            Decode::NotImplemented(d) => d.next_byte(),
        }
    }
}

/// Pulls everything from `source`: its bytes, or its failure.
pub fn collect<S: ByteSource>(source: &mut S) -> (r: Result<Vec<u8>, PdfError>)
    requires
        old(source).inv(),
    ensures
        final(source).inv(),
        match r {
            Ok(v) => old(source).rest() == (v@, None::<PdfErrorKind>),
            Err(e) => old(source).rest().1 == Some(e.kind),
        },
{
    let mut out: Vec<u8> = Vec::new();
    loop
        invariant
            source.inv(),
            old(source).rest().0 == out@ + source.rest().0,
            old(source).rest().1 == source.rest().1,
        decreases source.rest().0.len(),
    {
        let ghost before = source.rest();
        match source.next_byte() {
            Some(Ok(b)) => {
                let ghost ob = out@;
                out.push(b);
                assert(ob + before.0 =~= out@ + source.rest().0);
            },
            Some(Err(e)) => {
                return Err(e);
            },
            None => {
                assert(out@ + before.0 =~= out@);
                return Ok(out);
            },
        }
    }
}

/// For each implemented filter, decoding what it encoded gives back the original bytes.
pub proof fn lemma_filter_round_trip(f: Filter, s: Seq<u8>)
    requires
        is_implemented(f),
    ensures
        spec_filter_decode(f, spec_filter_encode(f, s)) == Ok::<Seq<u8>, FilterError>(s),
{
    if f == Filter::ASCIIHex {
        lemma_ascii_hex_round_trip(s);
    } else {
        lemma_ascii85_round_trip(s);
    }
}

/// For each implemented filter, a decoder chained after an encoder over a source that
/// ends without failure gives that source's bytes and ends without failure.
pub proof fn lemma_filter_chain(f: Filter, s: Seq<u8>)
    requires
        is_implemented(f),
    ensures
        stream_decode_model(f, stream_encode_model(f, (s, None))) == (s, None::<PdfErrorKind>),
{
    if f == Filter::ASCIIHex {
        lemma_hex_chain((s, None));
    } else {
        lemma_a85_chain(s);
    }
}

} // verus!
