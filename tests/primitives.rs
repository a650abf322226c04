use pdf_lib::{
    parse, PdfBoolean, PdfError, PdfErrorKind, PdfName, PdfNull, PdfNumeric, PdfReal, PdfString,
};

fn real_value(r: &PdfReal) -> f32 {
    let whole = String::from_utf8(r.whole_digits().to_vec()).unwrap();
    let fraction = String::from_utf8(r.fraction_digits().to_vec()).unwrap();
    let text = format!(
        "{}{}.{}",
        if r.is_negative() { "-" } else { "" },
        if whole.is_empty() { "0" } else { whole.as_str() },
        if fraction.is_empty() { "0" } else { fraction.as_str() }
    );
    text.parse::<f32>().unwrap()
}

fn numeric_value(n: &PdfNumeric) -> Result<i32, f32> {
    match n {
        PdfNumeric::PdfInt(v) => Ok(*v),
        PdfNumeric::PdfReal(r) => Err(real_value(r)),
    }
}

#[test]
fn lib_parsing() {
    let valid: [&[u8]; 3] = [b"true", b"false", b"false "];
    let expected = [(true, 4), (false, 5), (false, 5)];
    for (bytes, (res, rest)) in valid.into_iter().zip(expected) {
        let parsed = parse(bytes);
        assert_eq!(parsed, Ok((res, &bytes[rest..])));
    }

    let invalid: [&[u8]; 3] = [b"True", b"fal se", b"false\\"];
    for bytes in invalid {
        assert!(parse::<bool>(bytes).is_err());
    }
}

#[test]
fn parsable_parsing() {
    let valid: [&[u8]; 3] = [b"true ", b"false", b"false "];
    let expected = [(true, 4), (false, 5), (false, 5)];
    for (bytes, (res, rest)) in valid.into_iter().zip(expected) {
        let parsed = parse(bytes);
        assert_eq!(parsed, Ok((res, &bytes[rest..])));
    }

    let invalid: [&[u8]; 3] = [b"True", b"fal se", b"false\\"];
    for bytes in invalid {
        assert!(parse::<bool>(bytes).is_err());
    }
}

#[test]
fn pdf_bool_parsing() {
    let p = |a: &str| a.parse::<PdfBoolean>().map(|b| b.value());
    let err = Err(PdfError::with_kind(PdfErrorKind::Parse));
    assert_eq!(p("true"), Ok(true));
    assert_eq!(p("false"), Ok(false));
    assert_eq!(p("tru e"), err);
    assert_eq!(p("True"), err);
}

#[test]
fn size_test() {
    println!("PdfNumeric({}B)", std::mem::size_of::<PdfNumeric>());
    println!("bool({}B)", std::mem::size_of::<bool>());
    println!("PdfString({}B)", std::mem::size_of::<PdfString>());
    println!("PdfName({}B)", std::mem::size_of::<PdfName>());
}

fn numeric_cases() -> Vec<(&'static str, Result<i32, f32>)> {
    vec![
        ("123", Ok(123)),
        ("43445", Ok(43445)),
        ("+17", Ok(17)),
        ("-98", Ok(-98)),
        ("0", Ok(0)),
        ("00987", Ok(987)),
        ("34.5", Err(34.5)),
        ("-3.62", Err(-3.62)),
        ("+123.6", Err(123.6)),
        ("4.", Err(4.0)),
        ("-.002", Err(-0.002)),
        ("0.0", Err(0.0)),
        ("009.87", Err(9.87)),
    ]
}

#[test]
fn pdf_num_parsing() {
    for (s, r) in numeric_cases() {
        assert_eq!(s.parse::<PdfNumeric>().map(|n| numeric_value(&n)), Ok(r), "{s}");
    }
    for s in ["b", "a", "3.0e1", "16#FFFE"] {
        assert_eq!(s.parse::<PdfNumeric>(), Err(PdfError::with_kind(PdfErrorKind::Parse)));
    }
}

#[test]
fn parsing_str() {
    for (s, r) in numeric_cases() {
        let n = s.parse::<PdfNumeric>().unwrap();
        assert_eq!(numeric_value(&n), r, "{s}");
    }
    for s in ["b", "a", "3.0e1", "16#FFFE"] {
        assert_eq!(s.parse::<PdfNumeric>(), Err(PdfError::with_kind(PdfErrorKind::Parse)));
    }
}

#[test]
fn parsing_bytes() {
    for (s, r) in numeric_cases() {
        let parsed = parse::<PdfNumeric>(s.as_bytes());
        let (n, rest) = parsed.unwrap();
        assert_eq!(rest, &[] as &[u8]);
        assert_eq!(numeric_value(&n), r, "{s}");
    }
    let err_data: [&[u8]; 4] = [b"b", b"a", b"3.0e1", b"16#FFFE"];
    for s in err_data {
        assert_eq!(parse::<PdfNumeric>(s), Err(PdfError::with_kind(PdfErrorKind::Parse)));
    }
}

#[test]
fn parsing_rest() {
    assert_eq!(parse::<PdfNumeric>(b"123 d"), Ok((PdfNumeric::PdfInt(123), b" d" as &[u8])));
    assert_eq!(parse::<PdfNumeric>(b"123\n"), Ok((PdfNumeric::PdfInt(123), b"\n" as &[u8])));
    assert_eq!(parse::<PdfNumeric>(b"123 "), Ok((PdfNumeric::PdfInt(123), b" " as &[u8])));
    let (n, rest) = parse::<PdfNumeric>(b"0.4\n/").unwrap();
    assert_eq!(numeric_value(&n), Err(0.4));
    assert_eq!(rest, b"\n/" as &[u8]);
}

#[test]
fn numeric_integer_limits() {
    assert_eq!(parse::<PdfNumeric>(b"2147483647"), Ok((PdfNumeric::PdfInt(i32::MAX), &[] as &[u8])));
    assert_eq!(parse::<PdfNumeric>(b"-2147483648"), Ok((PdfNumeric::PdfInt(i32::MIN), &[] as &[u8])));
    assert!(parse::<PdfNumeric>(b"2147483648").is_err());
    assert!(parse::<PdfNumeric>(b"3.0E1").is_err());
    assert!(parse::<PdfNumeric>(b".").is_err());
    assert!(parse::<PdfNumeric>(b"+").is_err());
    assert!(parse::<PdfNumeric>(b"1.2.3").is_err());
    assert!(parse::<PdfNumeric>(b"").is_err());
}

#[test]
fn real_digits_are_normalised() {
    let (n, _) = parse::<PdfNumeric>(b"009.870").unwrap();
    match n {
        PdfNumeric::PdfReal(r) => {
            assert!(!r.is_negative());
            assert_eq!(r.whole_digits(), b"9");
            assert_eq!(r.fraction_digits(), b"87");
        }
        _ => panic!("not a real"),
    }
    let (a, _) = parse::<PdfNumeric>(b"-0.0").unwrap();
    let (b, _) = parse::<PdfNumeric>(b"0.").unwrap();
    assert_eq!(a, b);
}

fn name_cases() -> ([&'static str; 11], [&'static str; 11]) {
    (
        [
            "/Name1",
            "/ASomeWhatLongerName",
            "/A;Name_With-Various***Characters?",
            "/1.2",
            "/$$",
            "/@pattern",
            "/.notdef",
            "/Lime#20Green",
            "/paired#28#29parentheses",
            "/The_Key_of_F#23_Minor",
            "/A#42",
        ],
        [
            "Name1",
            "ASomeWhatLongerName",
            "A;Name_With-Various***Characters?",
            "1.2",
            "$$",
            "@pattern",
            ".notdef",
            "Lime Green",
            "paired()parentheses",
            "The_Key_of_F#_Minor",
            "AB",
        ],
    )
}

#[test]
fn pdf_name_parsing() {
    let (examples, expected) = name_cases();
    for (e, x) in examples.into_iter().zip(expected) {
        let parsed = parse(e.as_bytes());
        assert_eq!(parsed, Ok((PdfName::from_raw_bytes(x.as_bytes()), &[] as &[u8])));
    }
}

#[test]
fn pdf_name_delimiters() {
    let parsed = parse("/Name]".as_bytes());
    assert_eq!(parsed, Ok((PdfName::from_raw_bytes("Name".as_bytes()), &[b']'] as &[u8])));
}

#[test]
fn name_errors() {
    assert!(parse::<PdfName>(b"Name").is_err());
    assert!(parse::<PdfName>(b"/A#4").is_err());
    assert!(parse::<PdfName>(b"/A#4G").is_err());
    assert!(parse::<PdfName>(b"/A\x00B").is_err());
    assert_eq!(parse::<PdfName>(b"/"), Ok((PdfName::from_raw_bytes(b""), &[] as &[u8])));
}

#[test]
fn name_escape_of_every_byte() {
    for x in 0..=255u8 {
        let text = format!("/#{:02X}", x);
        let (n, rest) = parse::<PdfName>(text.as_bytes()).unwrap();
        assert_eq!(n.bytes(), &[x]);
        assert!(rest.is_empty());
    }
}

#[test]
fn null_parsing() {
    assert_eq!(parse::<PdfNull>(b"null  /X"), Ok((PdfNull {}, b"/X" as &[u8])));
    assert_eq!(parse::<PdfNull>(b"null"), Ok((PdfNull {}, &[] as &[u8])));
    assert!(parse::<PdfNull>(b"nullx").is_err());
    assert!(parse::<PdfNull>(b"nul").is_err());
}

fn string_of(s: &str) -> Result<PdfString, PdfError> {
    s.parse::<PdfString>()
}

#[test]
fn hexa_parsing() {
    let examples = ["<901FA3>", "<901FA>"];
    let expected = [
        PdfString::from_raw_bytes(&[0x90, 0x1F, 0xA3]),
        PdfString::from_raw_bytes(&[0x90, 0x1F, 0xA0]),
    ];
    for (r, s) in expected.into_iter().zip(examples) {
        assert_eq!(string_of(s), Ok(r));
    }
}

#[test]
fn literal_parsing() {
    let examples = ["(string)", "(new\nline)", "(p(a)r(s)c(a(n)b)e(used))", "(*!&}^%)", "()", r"(\))"];
    let example_lens: [usize; 6] = [6, 8, 23, 6, 0, 1];
    for (len, s) in example_lens.into_iter().zip(examples) {
        let parsed = string_of(s);
        assert!(parsed.clone().is_ok_and(|v| v.len() == len), "`{}`({}) => {:?}", s, len, parsed);
    }
}

#[test]
fn literal_error() {
    let examples = [r"(()", r"())", r"((\))", r"(\())"];
    for s in examples {
        assert!(string_of(s).is_err());
    }
}

#[test]
fn literal_escaping() {
    let examples = [r"(a\245a\307)", r"(\0053)", r"(\053)", r"(\53)"];
    let expected = [
        PdfString::from_raw_bytes(&[b'a', 0o245, b'a', 0o307]),
        PdfString::from_raw_bytes(&[0o5, b'3']),
        PdfString::from_raw_bytes(&[0o53]),
        PdfString::from_raw_bytes(&[0o53]),
    ];
    for (s, r) in examples.iter().zip(expected) {
        assert_eq!(string_of(s), Ok(r));
    }
}

#[test]
fn literal_eol() {
    let examples = ["(a\nb)", "(a\rb)", "(a\r\nb)"];
    let expected = PdfString::from_raw_bytes(vec![b'a', b'\n', b'b'].as_slice());
    for s in examples {
        assert_eq!(string_of(s), Ok(expected.clone()), "{s}");
    }
}

#[test]
fn literal_line_split() {
    let examples = ["(a\\\nb)", "(a\\\r\nb)"];
    let expected = PdfString::from_raw_bytes(vec![b'a', b'b'].as_slice());
    for s in examples {
        assert_eq!(string_of(s), Ok(expected.clone()), "{s}");
    }
}

#[test]
fn hexa() {
    let examples: [&str; 4] = ["<901FA3>", "<901FA>", "<901 FA>", "<90\n\t1FA>"];
    let expected = [
        PdfString::from_raw_bytes(&[0x90, 0x1F, 0xA3]),
        PdfString::from_raw_bytes(&[0x90, 0x1F, 0xA0]),
        PdfString::from_raw_bytes(&[0x90, 0x1F, 0xA0]),
        PdfString::from_raw_bytes(&[0x90, 0x1F, 0xA0]),
    ];
    for (r, s) in expected.into_iter().zip(examples) {
        let parsed_bytes = parse(s.as_bytes());
        assert_eq!(parsed_bytes, Ok((r.clone(), &[] as &[u8])), "B => {s:?}");
        assert_eq!(string_of(s), Ok(r), "S => {s:?}");
    }
}

#[test]
fn literal() {
    let examples = [
        "(string)",
        "(new\nline)",
        "(p(a)r(s)c(a(n)b)e(used))",
        "(*!&}^%)",
        "()",
        r"(\))",
        "(a\\245a\\307)",
        "(\\0053)",
        "(\\053)",
        "(\\53)",
        "(\\53a)",
        "(\\5a)",
        "(a\nb)",
        "(a\rb)",
        "(a\r\nb)",
        "(a\\\nb)",
        "(a\\\r\nb)",
    ];
    let expected = [
        PdfString::from_raw_bytes(b"string"),
        PdfString::from_raw_bytes(b"new\nline"),
        PdfString::from_raw_bytes(b"p(a)r(s)c(a(n)b)e(used)"),
        PdfString::from_raw_bytes(b"*!&}^%"),
        PdfString::from_raw_bytes(b""),
        PdfString::from_raw_bytes(b")"),
        PdfString::from_raw_bytes(&[b'a', 0o245, b'a', 0o307]),
        PdfString::from_raw_bytes(&[0o5, b'3']),
        PdfString::from_raw_bytes(&[0o53]),
        PdfString::from_raw_bytes(&[0o53]),
        PdfString::from_raw_bytes(&[0o53, b'a']),
        PdfString::from_raw_bytes(&[0o5, b'a']),
        PdfString::from_raw_bytes(b"a\nb"),
        PdfString::from_raw_bytes(b"a\nb"),
        PdfString::from_raw_bytes(b"a\nb"),
        PdfString::from_raw_bytes(b"ab"),
        PdfString::from_raw_bytes(b"ab"),
    ];
    for (e, r) in examples.into_iter().zip(expected) {
        let parsed_bytes = parse(e.as_bytes());
        assert_eq!(parsed_bytes, Ok((r.clone(), &[] as &[u8])), "B => {e:?}");
        assert_eq!(string_of(e), Ok(r), "S => {e:?}");
    }
}

#[test]
fn literal_escapes_and_rest() {
    assert_eq!(
        parse::<PdfString>(b"(\\n\\r\\t\\b\\f\\\\\\(\\)\\q) rest"),
        Ok((PdfString::from_raw_bytes(&[0x0a, 0x0d, 0x09, 0x08, 0xff, b'\\', b'(', b')', b'q']), b" rest" as &[u8]))
    );
    assert!(parse::<PdfString>(b"(\\777)").is_err());
    assert!(parse::<PdfString>(b"<12G4>").is_err());
    assert!(parse::<PdfString>(b"<1234").is_err());
    assert_eq!(parse::<PdfString>(b"<>"), Ok((PdfString::from_raw_bytes(b""), &[] as &[u8])));
}

#[test]
fn text_entry_points() {
    assert_eq!("(a) ".parse::<PdfString>(), Err(PdfError::with_kind(PdfErrorKind::Parse)));
    assert_eq!("12 ".parse::<PdfNumeric>(), Err(PdfError::with_kind(PdfErrorKind::Parse)));
    assert_eq!("<41 42>".parse::<PdfString>(), Ok(PdfString::from_raw_bytes(b"AB")));
}
