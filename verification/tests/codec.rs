use vdf_serde::{from_str, to_string, Error, Shape, Value};

fn test_shape() -> Shape {
    Shape::Record(
        "Test".to_string(),
        vec![
            ("int".to_string(), Shape::U32),
            (
                "inner".to_string(),
                Shape::Record(
                    "Inner".to_string(),
                    vec![
                        ("foo".to_string(), Shape::Str),
                        ("bar".to_string(), Shape::Bool),
                    ],
                ),
            ),
        ],
    )
}

fn test_value() -> Value {
    Value::Record(
        "Test".to_string(),
        vec![
            ("int".to_string(), Value::U32(1)),
            (
                "inner".to_string(),
                Value::Record(
                    "Inner".to_string(),
                    vec![
                        ("foo".to_string(), Value::Str("baz".to_string())),
                        ("bar".to_string(), Value::Bool(false)),
                    ],
                ),
            ),
        ],
    )
}

fn test_text() -> String {
    "\"Test\"\n{\n\t\"int\"\t\"1\"\n\t\"inner\"\n\t{\n\t\t\"foo\"\t\"baz\"\n\t\t\"bar\"\t\"0\"\n\t}\n}"
        .to_string()
}

#[test]
fn de_test_struct() {
    let expected = test_value();
    assert_eq!(expected, from_str(&test_text(), &test_shape()).unwrap());
}

#[test]
fn ser_test_struct() {
    assert_eq!(to_string(&test_value()).unwrap(), test_text());
}

#[test]
fn round_trip_kitchen_sink() {
    let v = Value::Record(
        "KitchenSink".to_string(),
        vec![
            ("a".to_string(), Value::Bool(true)),
            ("b".to_string(), Value::I8(-123)),
            ("c".to_string(), Value::I16(-45)),
            ("d".to_string(), Value::I32(-67)),
            ("e".to_string(), Value::I64(-890)),
            ("f".to_string(), Value::U8(12)),
            ("g".to_string(), Value::U16(345)),
            ("h".to_string(), Value::U32(678)),
            ("i".to_string(), Value::U64(901)),
            ("l".to_string(), Value::Chr('q')),
            ("m".to_string(), Value::Str("sample text".to_string())),
            ("n".to_string(), Value::Tag("A".to_string())),
            (
                "o".to_string(),
                Value::Newtype("NewtypeStruct".to_string(), Box::new(Value::U8(3))),
            ),
            (
                "p".to_string(),
                Value::Dict(vec![(
                    "hello".to_string(),
                    Value::Str("there".to_string()),
                )]),
            ),
            (
                "q".to_string(),
                Value::Opt(Box::new(Value::Str("present".to_string()))),
            ),
        ],
    );
    let shape = Shape::Record(
        "KitchenSink".to_string(),
        vec![
            ("a".to_string(), Shape::Bool),
            ("b".to_string(), Shape::I8),
            ("c".to_string(), Shape::I16),
            ("d".to_string(), Shape::I32),
            ("e".to_string(), Shape::I64),
            ("f".to_string(), Shape::U8),
            ("g".to_string(), Shape::U16),
            ("h".to_string(), Shape::U32),
            ("i".to_string(), Shape::U64),
            ("l".to_string(), Shape::Chr),
            ("m".to_string(), Shape::Str),
            (
                "n".to_string(),
                Shape::Tag(vec!["A".to_string(), "B".to_string()]),
            ),
            (
                "o".to_string(),
                Shape::Newtype("NewtypeStruct".to_string(), Box::new(Shape::U8)),
            ),
            ("p".to_string(), Shape::Dict(Box::new(Shape::Str))),
            ("q".to_string(), Shape::Opt(Box::new(Shape::Str))),
        ],
    );
    let text = to_string(&v).unwrap();
    assert_eq!(v, from_str(&text, &shape).unwrap());
}

#[test]
fn escaping_round_trip() {
    // A string holding a backslash, a quote and a newline survives encoding
    // and decoding unchanged; the tokenizer rejects the tab escape, so tabs
    // are outside the round-trip guarantee.
    let v = Value::Record(
        "T".to_string(),
        vec![(
            "s".to_string(),
            Value::Str("a\\b\"c\nd.".to_string()),
        )],
    );
    let shape = Shape::Record("T".to_string(), vec![("s".to_string(), Shape::Str)]);
    let text = to_string(&v).unwrap();
    assert_eq!(text, "\"T\"\n{\n\t\"s\"\t\"a\\\\b\\\"c\\nd.\"\n}");
    assert_eq!(v, from_str(&text, &shape).unwrap());
}

#[test]
fn decoded_items_are_unescaped() {
    let shape = Shape::Record("T".to_string(), vec![("s".to_string(), Shape::Str)]);
    let text = "\"T\"\n{\n\t\"s\"\t\"x\\ny\"\n}";
    let v = from_str(text, &shape).unwrap();
    assert_eq!(
        v,
        Value::Record(
            "T".to_string(),
            vec![("s".to_string(), Value::Str("x\ny".to_string()))]
        )
    );
}

#[test]
fn top_level_name_mismatch() {
    let shape = test_shape();
    let text = "\"Wrong\"\n{\n\t\"int\"\t\"1\"\n}";
    match from_str(text, &shape) {
        Err(Error::Expected(wanted, _)) => assert_eq!(wanted, "Test"),
        other => panic!("expected a name mismatch, got {:?}", other),
    }
}

#[test]
fn trailing_whitespace_is_allowed() {
    let mut text = test_text();
    text.push_str(" \t\n\r \n");
    assert_eq!(test_value(), from_str(&text, &test_shape()).unwrap());
}

#[test]
fn trailing_content_is_late_eof() {
    let mut text = test_text();
    text.push_str("\n\"extra\"");
    assert_eq!(from_str(&text, &test_shape()), Err(Error::LateEOF));
}

#[test]
fn early_end_of_input() {
    let text = "\"Test\"\n{\n\t\"int\"\t\"1\"\n";
    assert_eq!(from_str(text, &test_shape()), Err(Error::EarlyEOF));
}

#[test]
fn bool_literal_strictness() {
    let shape = Shape::Record("T".to_string(), vec![("b".to_string(), Shape::Bool)]);
    let good = "\"T\"\n{\n\t\"b\"\t\"1\"\n}";
    assert_eq!(
        from_str(good, &shape).unwrap(),
        Value::Record(
            "T".to_string(),
            vec![("b".to_string(), Value::Bool(true))]
        )
    );
    for bad in ["\"2\"", "\"true\"", "\"10\"", "\"01\""] {
        let text = format!("\"T\"\n{{\n\t\"b\"\t{}\n}}", bad);
        match from_str(&text, &shape) {
            Err(Error::Expected(_, _)) => {}
            other => panic!("expected a mismatch for {:?}, got {:?}", bad, other),
        }
    }
}

#[test]
fn numeric_parse_errors() {
    let shape = Shape::Record("T".to_string(), vec![("n".to_string(), Shape::U8)]);
    for bad in ["\"256\"", "\"-1\"", "\"12x\"", "\"x2\""] {
        let text = format!("\"T\"\n{{\n\t\"n\"\t{}\n}}", bad);
        match from_str(&text, &shape) {
            Err(Error::StringParse(_)) => {}
            other => panic!("expected a parse error for {:?}, got {:?}", bad, other),
        }
    }
    let text = "\"T\"\n{\n\t\"n\"\t\"+255\"\n}";
    assert_eq!(
        from_str(text, &shape).unwrap(),
        Value::Record("T".to_string(), vec![("n".to_string(), Value::U8(255))])
    );
}

#[test]
fn unsupported_shapes_are_rejected() {
    let mut de = vdf_serde::Deserializer::from_str("\"anything\"");
    assert_eq!(de.deserialize_seq(), Err(Error::UnsupportedType("seq")));
    assert_eq!(de.deserialize_tuple(), Err(Error::UnsupportedType("tuple")));
    assert_eq!(
        de.deserialize_bytes(),
        Err(Error::UnsupportedType("byte array"))
    );
    assert_eq!(de.deserialize_unit(), Err(Error::UnsupportedType("unit")));
    assert_eq!(de.deserialize_any(), Err(Error::UnsupportedType("any")));
}

#[test]
fn unsupported_shapes_write_nothing() {
    let mut ser = vdf_serde::Serializer {
        output: String::new(),
        indent_level: 0,
    };
    assert!(matches!(ser.serialize_seq(None), Err(Error::Message(_))));
    assert!(matches!(ser.serialize_none(), Err(Error::Message(_))));
    assert!(matches!(ser.serialize_unit(), Err(Error::Message(_))));
    assert!(matches!(ser.serialize_tuple(2), Err(Error::Message(_))));
    assert!(matches!(
        ser.serialize_bytes(&[1, 2, 3]),
        Err(Error::Message(_))
    ));
    assert_eq!(ser.output, "");
    assert_eq!(ser.indent_level, 0);
}

#[test]
fn dict_round_trip() {
    let v = Value::Dict(vec![
        ("TimeNextStatsReport".to_string(), Value::Str("69420691337".to_string())),
        ("ContentStatsID".to_string(), Value::Str("31337131269420".to_string())),
        ("1".to_string(), Value::Str("D:\\SteamLibrary".to_string())),
    ]);
    let shape = Shape::Dict(Box::new(Shape::Str));
    let text = to_string(&v).unwrap();
    assert_eq!(v, from_str(&text, &shape).unwrap());
}

#[test]
fn scalar_document_round_trip() {
    assert_eq!(to_string(&Value::Bool(true)).unwrap(), "\"1\"");
    assert_eq!(from_str("\"1\"", &Shape::Bool).unwrap(), Value::Bool(true));
    assert_eq!(to_string(&Value::I64(-42)).unwrap(), "\"-42\"");
    assert_eq!(
        from_str("\"-42\"", &Shape::I64).unwrap(),
        Value::I64(-42)
    );
}

#[test]
fn unknown_enum_variant_is_rejected() {
    let shape = Shape::Tag(vec!["A".to_string(), "B".to_string()]);
    assert_eq!(from_str("\"A\"", &shape).unwrap(), Value::Tag("A".to_string()));
    assert!(matches!(from_str("\"C\"", &shape), Err(Error::Message(_))));
}

#[test]
fn error_descriptions() {
    assert_eq!(Error::EarlyEOF.describe(), "input ended early");
    assert_eq!(Error::LateEOF.describe(), "input ended late");
    assert_eq!(
        Error::UnsupportedType("seq").describe(),
        "unsupported Serde data type seq used"
    );
    assert_eq!(
        Error::Expected("a".to_string(), "b".to_string()).describe(),
        "expected a, got b"
    );
    assert_eq!(Error::Message("hi".to_string()).describe(), "hi");
}

#[test]
fn newtype_top_level_document() {
    // A named single-field wrapper around arbitrary key-value data: the
    // wrapper's declared name leads the document, the wrapped map follows.
    let shape = Shape::Newtype(
        "LibraryFolders".to_string(),
        Box::new(Shape::Dict(Box::new(Shape::Str))),
    );
    let text = library_folders_doc();
    let expected = Value::Newtype(
        "LibraryFolders".to_string(),
        Box::new(Value::Dict(vec![
            (
                "TimeNextStatsReport".to_string(),
                Value::Str("69420691337".to_string()),
            ),
            ("1".to_string(), Value::Str("D:\\SteamLibrary".to_string())),
        ])),
    );
    assert_eq!(expected, from_str(&text, &shape).unwrap());
    match from_str("\"Other\"\n{\n}", &shape) {
        Err(Error::Expected(wanted, _)) => assert_eq!(wanted, "LibraryFolders"),
        other => panic!("expected a name mismatch, got {:?}", other),
    }
}

fn library_folders_doc() -> String {
    let mut text = String::new();
    text.push_str("\"LibraryFolders\"\n{\n");
    text.push_str("\t\"TimeNextStatsReport\"\t\"69420691337\"\n");
    text.push_str("\t\"1\"\t\"D:\\\\SteamLibrary\"\n");
    text.push_str("}");
    text
}

#[test]
fn unknown_field_is_rejected_like_ignored_any() {
    let shape = Shape::Record("T".to_string(), vec![("a".to_string(), Shape::Bool)]);
    let text = "\"T\"\n{\n\t\"b\"\t\"1\"\n}";
    assert_eq!(from_str(text, &shape), Err(Error::UnsupportedType("any")));
}

#[test]
fn map_rejects_wrong_opening_token() {
    let shape = Shape::Dict(Box::new(Shape::Str));
    match from_str("\"oops\"", &shape) {
        Err(Error::Expected(wanted, got)) => {
            assert_eq!(wanted, "'{'");
            assert_eq!(got, "Item(\"oops\")");
        },
        other => panic!("expected a structural mismatch, got {:?}", other),
    }
}

#[test]
fn unterminated_group_is_rejected() {
    // A group opening where the closing delimiter or the next entry's key is
    // due: the entry reader rejects the delimiter as a key.
    let shape = Shape::Record("T".to_string(), vec![("b".to_string(), Shape::Bool)]);
    let text = "\"T\"\n{\n\t\"b\"\t\"1\"\n{";
    match from_str(text, &shape) {
        Err(Error::Expected(wanted, got)) => {
            assert_eq!(wanted, "Item");
            assert_eq!(got, "GroupStart");
        },
        other => panic!("expected a structural mismatch, got {:?}", other),
    }
}

#[test]
fn non_canonical_whitespace_decodes() {
    let text = "  \"Test\" \r\n {  \"int\"   \"1\"\n\n \"inner\" { \"foo\" \"baz\"\n\t\"bar\"\t\"0\"  } } ";
    assert_eq!(test_value(), from_str(text, &test_shape()).unwrap());
}

#[test]
fn empty_input_is_early_eof() {
    assert_eq!(from_str("", &test_shape()), Err(Error::EarlyEOF));
    assert_eq!(from_str(" \t\r\n", &Shape::Bool), Err(Error::EarlyEOF));
}

#[test]
fn rejection_messages() {
    let mut ser = vdf_serde::Serializer {
        output: String::new(),
        indent_level: 0,
    };
    assert_eq!(
        ser.serialize_seq(None),
        Err(Error::Message("can't serialize arrays in VDF".to_string()))
    );
    assert_eq!(
        ser.serialize_none(),
        Err(Error::Message("can't serialize None in VDF".to_string()))
    );
    assert_eq!(
        ser.serialize_tuple(2),
        Err(Error::Message("can't serialize tuples in VDF".to_string()))
    );
    let tag_shape = Shape::Tag(vec!["A".to_string()]);
    assert_eq!(
        from_str("\"C\"", &tag_shape),
        Err(Error::Message("unknown variant `C`".to_string()))
    );
    let chr_shape = Shape::Chr;
    assert_eq!(
        from_str("\"xy\"", &chr_shape),
        Err(Error::StringParse("too many characters in string".to_string()))
    );
}
