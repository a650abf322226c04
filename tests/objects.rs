use pdf_lib::{
    parse, IndirectData, PdfArray, PdfDict, PdfError, PdfErrorKind, PdfName, PdfNull, PdfNumeric,
    PdfObject, PdfObjectKind, PdfReal, PdfStream, PdfString,
};

fn real_value(r: &PdfReal) -> f32 {
    let whole = String::from_utf8(r.whole_digits().to_vec()).unwrap();
    let fraction = String::from_utf8(r.fraction_digits().to_vec()).unwrap();
    let text = format!(
        "{}{}.{}",
        if r.is_negative() { "-" } else { "" },
        if whole.is_empty() { "0" } else { whole.as_str() },
        if fraction.is_empty() { "0" } else { fraction.as_str() }
    );
    text.parse::<f32>().unwrap()
}

fn real_of(o: &PdfObject) -> f32 {
    match o.as_numeric_ref() {
        Ok(PdfNumeric::PdfReal(r)) => real_value(r),
        other => panic!("not a real: {other:?}"),
    }
}

fn name(s: &str) -> PdfName {
    PdfName::from_raw_bytes(s.as_bytes())
}

fn check_array_prefix(a: &PdfArray) {
    assert_eq!(a.get(0).unwrap(), &PdfObject::new(PdfObjectKind::Numeric(PdfNumeric::PdfInt(549))));
    assert_eq!(real_of(a.get(1).unwrap()), 3.14);
    assert_eq!(a.get(2).unwrap(), &PdfObject::new(PdfObjectKind::Boolean(true)));
    assert_eq!(a.get(3).unwrap(), &PdfObject::new(PdfObjectKind::String(PdfString::from_raw_bytes(b"Ralph"))));
    assert_eq!(a.get(4).unwrap(), &PdfObject::new(PdfObjectKind::Name(name("SomeName"))));
    assert_eq!(a.get(5).unwrap(), &PdfObject::new(PdfObjectKind::Null(PdfNull {})));
}

#[test]
fn pdf_array_parsing() {
    let (a, rest) = parse::<PdfArray>(b"[549 3.14 true (Ralph) /SomeName null ]").unwrap();
    assert!(rest.is_empty());
    assert_eq!(a.len(), 6);
    check_array_prefix(&a);

    let (a, rest) =
        parse::<PdfArray>(b"[549 3.14 true (Ralph) /SomeName null 12 0 obj <FF> endobj]").unwrap();
    assert!(rest.is_empty());
    assert_eq!(a.len(), 7);
    check_array_prefix(&a);
    assert_eq!(a.get(6).unwrap(), &PdfString::from_raw_bytes(&[0xff]).as_indirect_raw(12, 0));
}

#[test]
fn array_errors() {
    assert!(parse::<PdfArray>(b"[1 2").is_err());
    assert!(parse::<PdfArray>(b"549]").is_err());
    assert_eq!(parse::<PdfArray>(b"[] x").map(|(a, r)| (a.len(), r)), Ok((0, b" x" as &[u8])));
    let (a, _) = parse::<PdfArray>(b"[[1 ] [ ] ]").unwrap();
    assert_eq!(a.len(), 2);
}

#[test]
fn pdf_dict_parsing() {
    let example = "<</Type /Example
                                /Subtype /DictionaryExample
                                /Version 0.01
                                /IntegerItem 12
                                /StringItem (a string)
                                /Subdictionary <<
                                    /Item1 0.4
                                    /Item2 true
                                    /LastItem (not !)
                                    /VeryLastItem (OK)
                                >>
                            >>";
    let (d, rest) = parse::<PdfDict>(example.as_bytes()).unwrap();
    assert!(rest.is_empty());
    assert_eq!(d.len(), 6);
    assert_eq!(d.get(&name("Type")).unwrap(), &PdfObject::new(PdfObjectKind::Name(name("Example"))));
    assert_eq!(
        d.get(&name("Subtype")).unwrap(),
        &PdfObject::new(PdfObjectKind::Name(name("DictionaryExample")))
    );
    assert_eq!(real_of(d.get(&name("Version")).unwrap()), 0.01);
    assert_eq!(
        d.get(&name("IntegerItem")).unwrap(),
        &PdfObject::new(PdfObjectKind::Numeric(PdfNumeric::PdfInt(12)))
    );
    assert_eq!(
        d.get(&name("StringItem")).unwrap(),
        &PdfObject::new(PdfObjectKind::String(PdfString::from_raw_bytes(b"a string")))
    );
    let sub = d.get(&name("Subdictionary")).unwrap().as_dict_ref().unwrap();
    assert_eq!(sub.len(), 4);
    assert_eq!(real_of(sub.get(&name("Item1")).unwrap()), 0.4);
    assert_eq!(sub.get(&name("Item2")).unwrap(), &PdfObject::new(PdfObjectKind::Boolean(true)));
    assert_eq!(
        sub.get(&name("LastItem")).unwrap(),
        &PdfObject::new(PdfObjectKind::String(PdfString::from_raw_bytes(b"not !")))
    );
    assert_eq!(
        sub.get(&name("VeryLastItem")).unwrap(),
        &PdfObject::new(PdfObjectKind::String(PdfString::from_raw_bytes(b"OK")))
    );
    assert!(d.get(&name("Missing")).is_none());
}

#[test]
fn dict_later_key_wins() {
    let (d, _) = parse::<PdfDict>(b"<< /A 1 /B 2 /A (x) >>").unwrap();
    assert_eq!(d.len(), 2);
    assert_eq!(
        d.get(&name("A")).unwrap(),
        &PdfObject::new(PdfObjectKind::String(PdfString::from_raw_bytes(b"x")))
    );
    assert!(parse::<PdfDict>(b"<< /A 1").is_err());
    assert!(parse::<PdfDict>(b"<< 1 2 >>").is_err());
}

#[test]
fn object_dispatch() {
    let (o, rest) = parse::<PdfObject>(b"12 0 R]").unwrap();
    assert_eq!(o.kind(), &PdfObjectKind::Ref);
    assert_eq!(o.indirect(), Some(IndirectData { object: 12, generation: 0 }));
    assert_eq!(rest, b"]" as &[u8]);

    let (o, rest) = parse::<PdfObject>(b"7 1 obj /Hello endobj tail").unwrap();
    assert_eq!(o, PdfName::from_raw_bytes(b"Hello").as_indirect_raw(7, 1));
    assert_eq!(rest, b" tail" as &[u8]);

    let (o, rest) = parse::<PdfObject>(b"42 rest").unwrap();
    assert_eq!(o, PdfObject::new(PdfObjectKind::Numeric(PdfNumeric::PdfInt(42))));
    assert_eq!(rest, b" rest" as &[u8]);

    assert!(parse::<PdfObject>(b"").is_err());
    assert!(parse::<PdfObject>(b"]").is_err());
}

#[test]
fn stream_parsing() {
    let text = b"3 0 obj << /Length 5 >> stream\nHello\nendstream\nendobj rest";
    let (o, rest) = parse::<PdfObject>(text).unwrap();
    assert_eq!(o.indirect(), Some(IndirectData { object: 3, generation: 0 }));
    let st = o.as_stream().unwrap();
    assert_eq!(st.len(), 5);
    assert_eq!(st.data(), b"Hello");
    assert_eq!(rest, b" rest" as &[u8]);

    let (st, _) = parse::<PdfStream>(b"3 0 obj << /Length 2 >> stream\r\nab endstream endobj").unwrap();
    assert_eq!(st.data(), b"ab");

    assert_eq!(
        parse::<PdfStream>(b"3 0 obj << >> stream\nab endstream endobj").map(|_| ()),
        Err(PdfError::with_kind(PdfErrorKind::MissingStreamLength))
    );
    assert_eq!(
        parse::<PdfStream>(b"3 0 obj << /Length /X >> stream\nab endstream endobj").map(|_| ()),
        Err(PdfError::with_kind(PdfErrorKind::WrongType))
    );
    assert_eq!(
        parse::<PdfStream>(b"3 0 obj << /Length -1 >> stream\nab endstream endobj").map(|_| ()),
        Err(PdfError::with_kind(PdfErrorKind::InvalidData))
    );
    assert_eq!(
        parse::<PdfStream>(b"3 0 obj (x) stream\nab endstream endobj").map(|_| ()),
        Err(PdfError::with_kind(PdfErrorKind::WrongType))
    );
    assert!(parse::<PdfStream>(b"3 0 obj << /Length 9 >> stream\nab endstream endobj").is_err());
    assert!(parse::<PdfStream>(b"3 0 obj << /Length 2 >> streamab endstream endobj").is_err());
}

#[test]
fn stream_with_data() {
    let (d, _) = parse::<PdfDict>(b"<< /Length 3 >>").unwrap();
    let st = PdfStream::with_data(d, b"abc".to_vec()).unwrap();
    assert_eq!(st.len(), 3);
    let (d, _) = parse::<PdfDict>(b"<< /Length 4 >>").unwrap();
    assert_eq!(
        PdfStream::with_data(d, b"abc".to_vec()).map(|_| ()),
        Err(PdfError::with_kind(PdfErrorKind::InvalidData))
    );
    assert_eq!(
        PdfStream::with_data(PdfDict::new(), b"abc".to_vec()).map(|_| ()),
        Err(PdfError::with_kind(PdfErrorKind::MissingStreamLength))
    );
}

#[test]
fn kind_accessors() {
    let o = PdfObject::new(PdfObjectKind::Boolean(true));
    assert_eq!(o.as_bool(), Ok(true));
    assert_eq!(o.as_name_ref().map(|_| ()), Err(PdfError::with_kind(PdfErrorKind::WrongType)));
    let o = PdfObject::new(PdfObjectKind::Name(name("N")));
    assert_eq!(o.as_name(), Ok(name("N")));
}

#[test]
fn dict_equality_ignores_key_order() {
    let (a, _) = parse::<PdfDict>(b"<< /B 1 /A (x) /C << /Z 1 /Y 2 >> >>").unwrap();
    let (b, _) = parse::<PdfDict>(b"<< /C << /Y 2 /Z 1 >> /A (x) /B 1 >>").unwrap();
    assert_eq!(a, b);
    let (c, _) = parse::<PdfDict>(b"<< /A (x) /B 2 /C << /Z 1 /Y 2 >> >>").unwrap();
    assert_ne!(a, c);
    let mut d = PdfDict::new();
    d.insert(name("B"), PdfObject::new(PdfObjectKind::Numeric(PdfNumeric::PdfInt(1))));
    d.insert(name("A"), PdfObject::new(PdfObjectKind::Numeric(PdfNumeric::PdfInt(2))));
    let mut e = PdfDict::new();
    e.insert(name("A"), PdfObject::new(PdfObjectKind::Numeric(PdfNumeric::PdfInt(2))));
    e.insert(name("B"), PdfObject::new(PdfObjectKind::Numeric(PdfNumeric::PdfInt(1))));
    assert_eq!(d, e);
}

#[test]
fn conversions_copies_and_defaults() {
    let o: PdfObject = true.into();
    assert_eq!(o, PdfObject::new(PdfObjectKind::Boolean(true)));
    let none: Option<PdfObject> = None;
    let n: PdfObject = none.into();
    assert_eq!(n, PdfObject::new(PdfObjectKind::Null(PdfNull {})));
    let k: PdfObjectKind = name("K").into();
    assert_eq!(k, PdfObjectKind::Name(name("K")));

    let (d, _) = parse::<PdfDict>(b"<< /A [1 (x) << /B null >>] >>").unwrap();
    let copy = d.clone();
    assert_eq!(copy, d);
    assert_eq!(d.get_or_null(&name("Z")), PdfObject::new(PdfObjectKind::Null(PdfNull {})));
    assert_eq!(&d.get_or_null(&name("A")), d.get(&name("A")).unwrap());

    let s = PdfString::from_raw_bytes(b"s");
    let i = s.as_indirect_raw(4, 2);
    assert_eq!(i.indirect(), Some(IndirectData { object: 4, generation: 2 }));
    assert_eq!(i.as_string_ref().unwrap(), &s);
    let again = i.as_indirect(IndirectData { object: 5, generation: 0 });
    assert_eq!(again.indirect(), Some(IndirectData { object: 5, generation: 0 }));
}
