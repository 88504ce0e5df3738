use datastruct::binary_util::{Binary, BinaryError};
use datastruct::{DValue, Number, ParseError, ValueParser};

fn num(x: f64) -> DValue {
    DValue::Number(Number::from_text(&x.to_string()).unwrap())
}

fn is_absent(v: &DValue) -> bool {
    matches!(v, DValue::Null)
}

#[test]
fn binary_holds_its_bytes() {
    let b = Binary::new(vec![72, 101, 108, 108, 111]);
    assert_eq!(b.size(), 5);
    assert_eq!(b.read(), vec![72, 101, 108, 108, 111]);
    assert_eq!(b.to_string(), "binary!(SGVsbG8=)");
    assert_eq!(Binary::new(vec![]).to_string(), "binary!()");
    assert_eq!(Binary::new(vec![]).size(), 0);
}

#[test]
fn binary_from_b64_decodes() {
    let b = Binary::from_b64("SGVsbG8gV29ybGQ=".to_string()).unwrap();
    assert_eq!(b.read(), b"Hello World".to_vec());
    assert_eq!(Binary::from_b64(String::new()).unwrap().size(), 0);
}

#[test]
fn binary_from_b64_refuses_what_is_not_base64() {
    let r = Binary::from_b64("not base64!".to_string());
    assert_eq!(r.err(), Some(BinaryError::Decode));
    assert_eq!(
        BinaryError::Decode.message(),
        "Failed to decode base64 string"
    );
    assert!(Binary::from_b64("SGVsbG8".to_string()).is_err());
}

#[test]
fn number_is_held_by_its_decimal_text() {
    assert_eq!(Number::from_text("1.0").unwrap().text(), "1");
    assert_eq!(Number::from_text("-2.50e1").unwrap().text(), "-25");
    assert_eq!(Number::from_text(".5").unwrap().text(), "0.5");
    assert_eq!(Number::from_text("nan").unwrap().text(), "NaN");
    assert_eq!(Number::from_text("inf").unwrap().text(), "inf");
    assert!(Number::from_text("").is_none());
    assert!(Number::from_text("1x").is_none());
    assert!(Number::from_text(" 1").is_none());
    assert!(Number::from_text("true").is_none());
}

#[test]
fn to_string_writes_the_canonical_text() {
    assert_eq!(DValue::Null.to_string(), "none");
    assert_eq!(DValue::String("a \"b\"".to_string()).to_string(), "\"a \"b\"\"");
    assert_eq!(num(10.0).to_string(), "10");
    assert_eq!(num(0.5).to_string(), "0.5");
    assert_eq!(DValue::Boolean(true).to_string(), "true");
    assert_eq!(DValue::Boolean(false).to_string(), "false");
    assert_eq!(DValue::List(vec![]).to_string(), "[]");
    assert_eq!(
        DValue::List(vec![num(1.0), DValue::Null, DValue::Boolean(true)]).to_string(),
        "[1,none,true]"
    );
    assert_eq!(DValue::Dict(vec![]).to_string(), "{}");
    assert_eq!(
        DValue::Dict(vec![
            ("k1".to_string(), num(1.0)),
            ("k2".to_string(), DValue::String("v".to_string()))
        ])
        .to_string(),
        "{\"k1\":1,\"k2\":\"v\"}"
    );
    assert_eq!(
        DValue::Tuple((Box::new(num(1.0)), Box::new(num(2.0)))).to_string(),
        "(1, 2)"
    );
    assert_eq!(
        DValue::BinaryUtil(Binary::new(b"memento mori".to_vec())).to_string(),
        "binary!(bWVtZW50byBtb3Jp)"
    );
}

#[test]
fn equality_goes_by_the_canonical_text() {
    assert_eq!(num(1.0), num(1.0));
    assert_ne!(num(1.0), num(2.0));
    assert_ne!(num(1.0), DValue::String("1".to_string()));
    assert_eq!(DValue::String("none".to_string()).to_string(), "\"none\"");
    assert_ne!(DValue::Null, DValue::String("none".to_string()));
    let a = DValue::Dict(vec![("x".to_string(), num(1.0)), ("y".to_string(), num(2.0))]);
    let b = DValue::Dict(vec![("y".to_string(), num(2.0)), ("x".to_string(), num(1.0))]);
    assert_ne!(a, b);
    assert_eq!(a, a.clone());
}

#[test]
fn size_adds_up_the_parts() {
    let pair = DValue::Tuple((Box::new(DValue::String("ab".to_string())), Box::new(num(1.0))));
    assert_eq!(pair.size(), 10);
    assert_eq!(DValue::Null.size(), 0);
    assert_eq!(DValue::String("né".to_string()).size(), 3);
    assert_eq!(DValue::Boolean(true).size(), 1);
    assert_eq!(DValue::BinaryUtil(Binary::new(vec![1, 2, 3])).size(), 3);
    assert_eq!(
        DValue::List(vec![num(1.0), DValue::Boolean(false), DValue::Null]).size(),
        9
    );
    assert_eq!(
        DValue::Dict(vec![
            ("a long key".to_string(), num(1.0)),
            ("b".to_string(), DValue::String("xyz".to_string()))
        ])
        .size(),
        11
    );
    assert_eq!(DValue::List(vec![]).size(), 0);
}

#[test]
fn datatype_names_the_shape() {
    assert_eq!(DValue::Null.datatype(), "None");
    assert_eq!(DValue::String(String::new()).datatype(), "String");
    assert_eq!(num(0.0).datatype(), "Number");
    assert_eq!(DValue::Boolean(true).datatype(), "Boolean");
    assert_eq!(DValue::List(vec![]).datatype(), "List");
    assert_eq!(DValue::Dict(vec![]).datatype(), "Dict");
    assert_eq!(
        DValue::Tuple((Box::new(DValue::Null), Box::new(DValue::Null))).datatype(),
        "Tuple"
    );
    assert_eq!(DValue::BinaryUtil(Binary::new(vec![])).datatype(), "Binary");
}

#[test]
fn projections_give_the_shape_or_nothing() {
    let s = DValue::String("x".to_string());
    assert_eq!(s.as_string(), Some("x".to_string()));
    assert!(s.as_number().is_none());
    assert_eq!(s.as_bool(), None);
    assert!(s.as_tuple().is_none());
    assert!(s.as_list().is_none());
    assert!(s.as_dict().is_none());
    assert_eq!(num(2.5).as_number().unwrap().text(), "2.5");
    assert_eq!(DValue::Boolean(false).as_bool(), Some(false));
    let pair = DValue::Tuple((Box::new(num(1.0)), Box::new(DValue::Null))).as_tuple().unwrap();
    assert_eq!(*pair.0, num(1.0));
    assert!(is_absent(&pair.1));
    assert_eq!(
        DValue::List(vec![num(1.0), num(2.0)]).as_list(),
        Some(vec![num(1.0), num(2.0)])
    );
    let dict = DValue::Dict(vec![("k".to_string(), num(1.0))]).as_dict().unwrap();
    assert_eq!(dict.len(), 1);
    assert_eq!(dict[0].0, "k");
    assert_eq!(dict[0].1, num(1.0));
    assert_eq!(DValue::Null.as_string(), None);
}

#[test]
fn from_reads_each_shape() {
    assert_eq!(DValue::from("12.5"), num(12.5));
    assert_eq!(DValue::from("  -3e2 "), num(-300.0));
    assert_eq!(DValue::from("TRUE"), DValue::Boolean(true));
    assert_eq!(DValue::from("False"), DValue::Boolean(false));
    assert_eq!(DValue::from("\"héllo\""), DValue::String("héllo".to_string()));
    assert_eq!(DValue::from("\"\"").as_string(), Some(String::new()));
    assert_eq!(
        DValue::from("\"a\\nb\\u00e9\\\"\"").as_string(),
        Some("a\\nb\\u00e9\\\"".to_string())
    );
    assert_eq!(DValue::from("[]"), DValue::List(vec![]));
    assert_eq!(
        DValue::from(" [ 1 , \"x\" , [true] ] "),
        DValue::List(vec![
            num(1.0),
            DValue::String("x".to_string()),
            DValue::List(vec![DValue::Boolean(true)])
        ])
    );
    assert_eq!(DValue::from("{}"), DValue::Dict(vec![]));
    assert_eq!(
        DValue::from("{ \"a\" : 1 , \"b\":[2] }"),
        DValue::Dict(vec![
            ("a".to_string(), num(1.0)),
            ("b".to_string(), DValue::List(vec![num(2.0)]))
        ])
    );
    assert_eq!(
        DValue::from("( 1 , (2,3) )"),
        DValue::Tuple((
            Box::new(num(1.0)),
            Box::new(DValue::Tuple((Box::new(num(2.0)), Box::new(num(3.0)))))
        ))
    );
    assert_eq!(
        DValue::from("binary!(AAEC)"),
        DValue::BinaryUtil(Binary::new(vec![0, 1, 2]))
    );
    assert_eq!(DValue::from("binary!()"), DValue::BinaryUtil(Binary::new(vec![])));
}

#[test]
fn from_lets_a_later_key_win() {
    let v = DValue::from("{\"a\":1,\"b\":2,\"a\":3}");
    assert_eq!(v.to_string(), "{\"a\":3,\"b\":2}");
}

#[test]
fn from_gives_an_empty_payload_for_wrong_base64() {
    match DValue::from("binary!(***)") {
        DValue::BinaryUtil(b) => assert_eq!(b.size(), 0),
        other => panic!("not a payload: {:?}", other),
    }
}

#[test]
fn from_of_malformed_text_is_absent() {
    for text in [
        "",
        "   ",
        "[1,2",
        "[1,2,]",
        "[ ]",
        "[1 2]",
        "{\"a\":1",
        "{\"a\" 1}",
        "{a:1}",
        "(1)",
        "(1,2,3)",
        "(1,2",
        "\"open",
        "\"bad\\x\"",
        "\"bad\\u12\"",
        "\"tab\there\"",
        "binary!(",
        "binary!(ab\\)",
        "none",
        "tru",
        "1 2",
        "[1] x",
        "b:",
        "b:!!!:",
    ] {
        assert!(is_absent(&DValue::from(text)), "{:?} was read", text);
    }
}

#[test]
fn from_opens_an_envelope() {
    // "[1,2]" in base64
    assert_eq!(DValue::from("b:WzEsMl0=:"), DValue::List(vec![num(1.0), num(2.0)]));
    // "b:WzEsMl0=:" in base64: an envelope is opened once only
    assert!(is_absent(&DValue::from("b:YjpXekVzTWwwPTo=:")));
    // bytes that are no text in UTF-8
    assert!(is_absent(&DValue::from("b:/w==:")));
    // nothing inside
    assert!(is_absent(&DValue::from("b::")));
}

#[test]
fn parse_hands_back_the_rest() {
    assert_eq!(ValueParser::parse("1 , 2"), Ok((", 2", num(1.0))));
    assert_eq!(
        ValueParser::parse("\"a\"é"),
        Ok(("é", DValue::String("a".to_string())))
    );
    assert_eq!(ValueParser::parse("  true  x"), Ok(("x", DValue::Boolean(true))));
    assert_eq!(ValueParser::parse("x"), Err(ParseError::NoValue));
    assert_eq!(ValueParser::parse(""), Err(ParseError::NoValue));
}

#[test]
fn parse_at_gives_the_position_behind_the_value() {
    let (v, end) = ValueParser::parse_at("xx [1, 2] yy", 2).unwrap();
    assert_eq!(v, DValue::List(vec![num(1.0), num(2.0)]));
    assert_eq!(end, 10);
    assert!(ValueParser::parse_at("xx", 2).is_none());
    assert_eq!(ValueParser::parse_str("a\"bc\"", 1), Some(("bc".to_string(), 5)));
    assert_eq!(ValueParser::parse_bool(b"xfAlSe", 1), Some((false, 6)));
    assert_eq!(ValueParser::string_format(b"ab\\n\"", 0), Some(4));
    assert_eq!(ValueParser::string_format(b"ab", 0), None);
    assert_eq!(ValueParser::escapable(b"u12ab", 0), Some(5));
    assert_eq!(ValueParser::escapable(b"u12a", 0), None);
    assert_eq!(ValueParser::escapable(b"n", 0), Some(1));
    assert_eq!(ValueParser::escapable(b"x", 0), None);
    assert_eq!(ValueParser::parse_hex(b"uuuuu", 0), Some(5));
    assert!(ValueParser::normal(b'a'));
    assert!(!ValueParser::normal(b'"'));
    assert!(!ValueParser::normal(0x7f));
    let (n, end) = ValueParser::parse_num(b"[12.50]", 1).unwrap();
    assert_eq!(n.text(), "12.5");
    assert_eq!(end, 6);
    let (b, end) = ValueParser::parse_bin(b"binary!(AAEC) ", 0).unwrap();
    assert_eq!(b.read(), vec![0, 1, 2]);
    assert_eq!(end, 13);
}

#[test]
fn text_round_trip_keeps_the_canonical_text() {
    let value = DValue::Dict(vec![
        (
            "list".to_string(),
            DValue::List(vec![num(1.0), num(-0.25), num(1e21), DValue::Boolean(true)]),
        ),
        (
            "pair".to_string(),
            DValue::Tuple((
                Box::new(DValue::String("x \\n y é".to_string())),
                Box::new(DValue::BinaryUtil(Binary::new(vec![1, 2, 3, 4]))),
            )),
        ),
        ("empty".to_string(), DValue::String(String::new())),
        ("none".to_string(), DValue::BinaryUtil(Binary::new(vec![]))),
    ]);
    let text = value.to_string();
    let back = DValue::from(&text);
    assert_eq!(back.to_string(), text);
    assert_eq!(DValue::from(&DValue::Null.to_string()).to_string(), "none");
}
