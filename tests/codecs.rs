use pdf_lib::{collect, BytesSource, Filter, FilterError, PdfDict, PdfError, PdfErrorKind, PdfName};

fn encode(f: Filter, b: &[u8]) -> Vec<u8> {
    let mut e = f.encode(BytesSource::new(b.to_vec()), &PdfDict::new());
    collect(&mut e).unwrap()
}

fn decode(f: Filter, b: &[u8]) -> Result<Vec<u8>, PdfError> {
    let mut d = f.decode(BytesSource::new(b.to_vec()), &PdfDict::new());
    collect(&mut d)
}

fn chain(f: Filter, b: &[u8]) -> Result<Vec<u8>, PdfError> {
    let params = PdfDict::new();
    let mut d = f.decode(f.encode(BytesSource::new(b.to_vec()), &params), &params);
    collect(&mut d)
}

const A85: &[(&[u8], &[u8])] = &[
    (b"DCODE", b"6pja<70~>"),
    (
        b"testougfhAbIEf'pEJgf[IF[jgroho;iug;aoefh{Fjo;sirghl/sjrhgKGR",
        b"FCfN8Dfo])BL-*!7:mod77q3)>=h:gC1hR*BQ#tHF_<dEDe3NoHU_ag4*,+VB4u*7F)#`/B1k`m~>",
    ),
    (b"\x00\x00\x00\x00", b"z~>"),
    (b"a\x00\x00\x00\x00", b"@/p9-!!~>"),
    (b"a\x00\x00\x00\x00\x00", b"@/p9-!!!~>"),
    (b"a\x00\x00\x00\x00\x00\x00", b"@/p9-!!!!~>"),
];

#[test]
fn encode_ascii85() {
    for (i, o) in A85 {
        assert_eq!(encode(Filter::ASCII85, i).as_slice(), *o);
    }
}

#[test]
fn decode_ascii85() {
    for (i, o) in A85 {
        assert_eq!(decode(Filter::ASCII85, o).unwrap().as_slice(), *i);
    }
}

const CHAIN: [&[u8]; 6] = [b"74657374>", b"12FF>", b"test", b"\x12\xFF", b" \n0\x00", b"200A3000>"];

#[test]
fn chain_ascii85() {
    for e in CHAIN {
        let c = chain(Filter::ASCII85, e);
        assert!(c.is_ok());
        assert_eq!(c.unwrap().as_slice(), e);
    }
}

#[test]
fn encode_ascii_hex() {
    let examples: [&[u8]; 3] = [b"test", b"\x12\xFF", b" \n0\x00"];
    let expected: [&[u8]; 3] = [b"74657374>", b"12FF>", b"200A3000>"];
    for (example, exp) in examples.into_iter().zip(expected) {
        assert_eq!(encode(Filter::ASCIIHex, example).as_slice(), exp);
    }
}

#[test]
fn decode_ascii_hex() {
    let examples: [&[u8]; 3] = [b"74657374>", b"12FF>", b"200A3000>"];
    let expected: [&[u8]; 3] = [b"test", b"\x12\xFF", b" \n0\x00"];
    for (example, exp) in examples.into_iter().zip(expected) {
        let decoded = decode(Filter::ASCIIHex, example);
        assert!(decoded.is_ok());
        assert_eq!(decoded.unwrap().as_slice(), exp);
    }
}

#[test]
fn chain_ascii_hex() {
    for e in CHAIN {
        let c = chain(Filter::ASCIIHex, e);
        assert!(c.is_ok());
        assert_eq!(c.unwrap().as_slice(), e);
    }
}

#[test]
fn ascii_hex_decode_details() {
    assert_eq!(decode(Filter::ASCIIHex, b" 7 4\n6>").unwrap(), vec![0x74, 0x60]);
    assert_eq!(decode(Filter::ASCIIHex, b">").unwrap(), Vec::<u8>::new());
    assert_eq!(
        decode(Filter::ASCIIHex, b"7G>"),
        Err(PdfError::with_kind(PdfErrorKind::Filter(FilterError::ASCIIHexDecode(b'G'))))
    );
    assert_eq!(
        decode(Filter::ASCIIHex, b"74"),
        Err(PdfError::with_kind(PdfErrorKind::Filter(FilterError::MissingEOD)))
    );
}

#[test]
fn ascii85_decode_details() {
    assert_eq!(decode(Filter::ASCII85, b"6pj a<\n70~ >").unwrap(), b"DCODE".to_vec());
    assert_eq!(decode(Filter::ASCII85, b"~>").unwrap(), Vec::<u8>::new());
    assert_eq!(
        decode(Filter::ASCII85, b"6pja<"),
        Err(PdfError::with_kind(PdfErrorKind::Filter(FilterError::MissingEOD)))
    );
    assert_eq!(
        decode(Filter::ASCII85, b"6pja<70~x"),
        Err(PdfError::with_kind(PdfErrorKind::Filter(FilterError::MissingEOD)))
    );
    assert_eq!(
        decode(Filter::ASCII85, b"6p{a<~>"),
        Err(PdfError::with_kind(PdfErrorKind::Filter(FilterError::ASCII85Decode)))
    );
    assert_eq!(
        decode(Filter::ASCII85, b"uuuuu~>"),
        Err(PdfError::with_kind(PdfErrorKind::Filter(FilterError::ASCII85Decode)))
    );
}

#[test]
fn codec_round_trips() {
    let mut all: Vec<u8> = (0..=255u8).collect();
    all.extend_from_slice(&[0, 0, 0, 0, 1]);
    for len in 0..all.len() {
        let s = &all[..len];
        assert_eq!(decode(Filter::ASCIIHex, &encode(Filter::ASCIIHex, s)).unwrap(), s);
        assert_eq!(decode(Filter::ASCII85, &encode(Filter::ASCII85, s)).unwrap(), s);
        assert_eq!(chain(Filter::ASCIIHex, s).unwrap(), s);
        assert_eq!(chain(Filter::ASCII85, s).unwrap(), s);
        let params = PdfDict::new();
        for f in [Filter::ASCIIHex, Filter::ASCII85] {
            let whole = f.encode_bytes(s, &params).unwrap();
            assert_eq!(whole, encode(f, s));
            assert_eq!(f.decode_bytes(&whole, &params).unwrap(), s);
        }
    }
}

#[test]
fn filter_registry() {
    let names = [
        "ASCIIHexDecode",
        "ASCII85Decode",
        "LZWDecode",
        "FlateDecode",
        "RunLengthDecode",
        "CCITTFaxDecode",
        "JBIG2Decode",
        "DCTDecode",
        "JPXDecode",
        "CryptDecode",
    ];
    for n in names {
        let f = Filter::from_text(n).unwrap();
        assert_eq!(f.name(), PdfName::from_raw_bytes(n.as_bytes()));
        assert_eq!(Filter::from_name(&f.name()).unwrap(), f);
    }
    assert_eq!(Filter::from_text("Nope").map(|_| ()), Err(PdfError::with_kind(PdfErrorKind::InvalidData)));
    assert_eq!(Filter::Flate.valid_params().len(), 4);
    assert_eq!(Filter::CCITTFax.valid_params().len(), 8);
    assert_eq!(Filter::Crypt.valid_params(), vec![PdfName::from_raw_bytes(b"Type"), PdfName::from_raw_bytes(b"Name")]);
    assert!(Filter::ASCIIHex.valid_params().is_empty());
}

#[test]
fn streaming_and_whole_buffer_decoders_agree() {
    let params = PdfDict::new();
    let inputs: [&[u8]; 12] = [
        b"6pja<70~>", b"6p ja<\n70~ >", b"z~>", b"6pja<", b"6p{a<~>", b"uuuuu~>", b"~x", b"@/~>",
        b"74657374>", b"7G>", b"74", b"7 4 6>",
    ];
    for f in [Filter::ASCIIHex, Filter::ASCII85] {
        for i in inputs {
            let whole = f.decode_bytes(i, &params);
            let streamed = decode(f, i);
            match (&whole, &streamed) {
                (Ok(a), Ok(b)) => assert_eq!(a, b),
                (Err(a), Err(b)) => assert_eq!(a, b),
                _ => panic!("{f:?} {i:?}: {whole:?} / {streamed:?}"),
            }
        }
    }
}

#[test]
fn reserved_filters_fail_without_panicking() {
    let params = PdfDict::new();
    let reserved = [
        Filter::LZW,
        Filter::Flate,
        Filter::RunLength,
        Filter::CCITTFax,
        Filter::JBIG2,
        Filter::DCT,
        Filter::JPX,
        Filter::Crypt,
    ];
    let not_implemented = PdfError::with_kind(PdfErrorKind::Filter(FilterError::NotImplemented));
    for f in reserved {
        assert_eq!(encode_try(f, b"abc"), Err(not_implemented.clone()));
        assert_eq!(decode(f, b"abc"), Err(not_implemented.clone()));
        assert_eq!(f.encode_bytes(b"abc", &params), Err(not_implemented.clone()));
        assert_eq!(f.decode_bytes(b"abc", &params), Err(not_implemented.clone()));
    }
}

fn encode_try(f: Filter, b: &[u8]) -> Result<Vec<u8>, PdfError> {
    let mut e = f.encode(BytesSource::new(b.to_vec()), &PdfDict::new());
    collect(&mut e)
}
