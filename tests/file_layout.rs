use pdf_lib::{
    next_eol, parse, strip_whitespace, PdfCrossRefTable, PdfCrossRefTableEntry,
    PdfCrossRefTableSection, PdfCrossRefTableSubsection, PdfCrossRefTableSubsectionHeader, PdfError,
    PdfErrorKind, PdfHeader, PdfVersion,
};

#[test]
fn pdf_header_print_header() {
    let header = PdfHeader::with_verion(PdfVersion::new(1, 5), true).unwrap();
    assert_eq!(header.to_bytes(), "%PDF-1.5\n%\u{FFFD}\u{FFFD}\u{FFFD}\u{FFFD}\n".as_bytes());
    let header = PdfHeader::with_verion(PdfVersion::new(1, 5), false).unwrap();
    assert_eq!(header.to_bytes(), "%PDF-1.5\n".as_bytes());
}

#[test]
fn pdf_header_parsing() {
    let examples = ["%PDF-1.0\n%\u{FFFD}\u{FFFD}\n", "%PDF-2.0\n%\u{FFFD}\u{FFFD}\n", "%PDF-1.0\n", "%PDF-1.9\n"];
    let expected = [
        Ok(PdfHeader::with_verion(PdfVersion::new(1, 0), true).unwrap()),
        Ok(PdfHeader::with_verion(PdfVersion::new(2, 0), true).unwrap()),
        Ok(PdfHeader::with_verion(PdfVersion::new(1, 0), false).unwrap()),
        Err(PdfError::with_kind(PdfErrorKind::Parse)),
    ];
    for (s, e) in examples.into_iter().zip(expected) {
        assert_eq!(parse(s.as_bytes()), e.map(|o| (o, &[] as &[u8])));
    }
}

#[test]
fn header_scenarios() {
    let (h, rest) = parse::<PdfHeader>(b"%PDF-1.7\n%\xFF\xFF\xFF\xFF\n1 0 obj").unwrap();
    assert_eq!((h.version().major(), h.version().minor(), h.binary_marker()), (1, 7, true));
    assert_eq!(rest, b"1 0 obj" as &[u8]);
    assert!(parse::<PdfHeader>(b"%PDF-1.9").is_err());
    assert!(parse::<PdfHeader>(b"%PDF-3.0\n").is_err());
    assert!(parse::<PdfHeader>(b"%PDF1.7\n").is_err());
    assert!(PdfHeader::with_verion(PdfVersion::new(2, 1), false).is_err());
}

#[test]
fn scanning() {
    assert_eq!(strip_whitespace(b" \t\r\n\x0c\x00x "), b"x ");
    assert_eq!(strip_whitespace(strip_whitespace(b"  y")), strip_whitespace(b"  y"));
    assert_eq!(next_eol(b"abc\r\ndef"), b"def");
    assert_eq!(next_eol(b"abc\rdef"), b"def");
    assert_eq!(next_eol(b"abc"), b"");
    assert_eq!(next_eol(b""), b"");
}

const EX_2: &str = "xref
0 6
0000000003 65535 f
0000000017 00000 n
0000000081 00000 n
0000000000 00007 f
0000000331 00000 n
0000000409 00000 n";

const EX_3: &str = "xref
0 1
0000000000 65535 f
3 1
0000025325 00000 n
23 2
0000025518 00002 n
0000025635 00000 n
30 1
0000025777 00000 n";

fn entry(offset: u64, gen: u16, free: bool) -> PdfCrossRefTableEntry {
    PdfCrossRefTableEntry::new(offset, gen, free)
}

fn sub(first: usize, entries: Vec<PdfCrossRefTableEntry>) -> PdfCrossRefTableSubsection {
    PdfCrossRefTableSubsection::new(PdfCrossRefTableSubsectionHeader::new(first, entries.len()), entries)
}

fn ex_2_builder() -> PdfCrossRefTableSection {
    PdfCrossRefTableSection::new(vec![sub(
        0,
        vec![
            entry(3, 65535, true),
            entry(17, 0, false),
            entry(81, 0, false),
            entry(0, 7, true),
            entry(331, 0, false),
            entry(409, 0, false),
        ],
    )])
}

fn ex_3_builder() -> PdfCrossRefTableSection {
    PdfCrossRefTableSection::new(vec![
        sub(0, vec![entry(0, 65535, true)]),
        sub(3, vec![entry(25325, 0, false)]),
        sub(23, vec![entry(25518, 2, false), entry(25635, 0, false)]),
        sub(30, vec![entry(25777, 0, false)]),
    ])
}

fn examples() -> [(&'static str, PdfCrossRefTableSection); 2] {
    [(EX_2, ex_2_builder()), (EX_3, ex_3_builder())]
}

#[test]
fn parse_cross_table_section() {
    for example in examples() {
        let parsed = example.0.parse();
        assert_eq!(parsed, Ok(example.1));
    }
}

#[test]
fn parse_cross_table() {
    for example in examples() {
        let parsed = example.0.parse().map(|r: PdfCrossRefTable| r.sections()[0].clone());
        assert_eq!(parsed, Ok(example.1));
    }
    let combined = examples().iter().fold(String::new(), |mut acc, v| {
        acc.push_str(v.0);
        acc
    });
    let combined_sections = PdfCrossRefTable::new(examples().iter().map(|v| v.1.clone()).collect());
    assert_eq!(combined.parse(), Ok(combined_sections));
}

#[test]
fn parse_entry_errors() {
    let examples = [
        " ",
        "0 1 f",
        "0000000000 1 f",
        "0000000000 10000 a",
        "00000a0000 99999 f",
        "0000000    00000 f",
        "0000000      000 f",
        "0000000    0xada f",
    ];
    for example in examples {
        assert!(example.parse::<PdfCrossRefTableEntry>().is_err(), "{example}");
    }
}

#[test]
fn xref_entry_scenarios() {
    assert_eq!("0000000017 00000 n".parse::<PdfCrossRefTableEntry>(), Ok(entry(17, 0, false)));
    assert!("0000000 00000 f".parse::<PdfCrossRefTableEntry>().is_err());
    assert!("0000000017 70000 n".parse::<PdfCrossRefTableEntry>().is_err());
    assert_eq!(
        "12 3".parse::<PdfCrossRefTableSubsectionHeader>(),
        Ok(PdfCrossRefTableSubsectionHeader::new(12, 3))
    );
    assert!("12  3".parse::<PdfCrossRefTableSubsectionHeader>().is_err());
}

#[test]
fn xref_section_errors() {
    assert!("xref\n0 2\n0000000017 00000 n".parse::<PdfCrossRefTableSection>().is_err());
    assert!("xref\n0000000017 00000 n".parse::<PdfCrossRefTableSection>().is_err());
    assert!("xrof\n0 0".parse::<PdfCrossRefTableSection>().is_err());
    assert_eq!(
        "xref\r\n0 1\r\n0000000017 00000 n\r\n".parse::<PdfCrossRefTableSection>(),
        Ok(PdfCrossRefTableSection::new(vec![sub(0, vec![entry(17, 0, false)])]))
    );
    assert_eq!("no table".parse::<PdfCrossRefTable>(), Ok(PdfCrossRefTable::new(vec![])));
}
