use datastruct::binary_util::Binary;
use datastruct::json_tree::Json;
use datastruct::{DValue, Number};

fn num(x: f64) -> DValue {
    DValue::Number(Number::from_text(&x.to_string()).unwrap())
}

#[test]
fn parse_to_json() {
    let value = DValue::List(vec![num(3.0), num(6.0), num(9.0)]);
    let expected_json = r#"{"List":[{"Number":3.0},{"Number":6.0},{"Number":9.0}]}"#;
    assert_eq!(value.to_json(), expected_json);
}

#[test]
fn to_json_of_each_shape() {
    assert_eq!(DValue::Null.to_json(), r#""None""#);
    assert_eq!(
        DValue::String("a\"b".to_string()).to_json(),
        r#"{"String":"a\"b"}"#
    );
    assert_eq!(DValue::Boolean(true).to_json(), r#"{"Boolean":true}"#);
    assert_eq!(num(1.5).to_json(), r#"{"Number":1.5}"#);
    assert_eq!(num(f64::NAN).to_json(), r#"{"Number":null}"#);
    assert_eq!(
        DValue::Tuple((Box::new(DValue::Boolean(false)), Box::new(DValue::Null))).to_json(),
        r#"{"Tuple":[{"Boolean":false},"None"]}"#
    );
    assert_eq!(
        DValue::Dict(vec![
            ("b".to_string(), num(2.0)),
            ("a".to_string(), DValue::Boolean(true))
        ])
        .to_json(),
        r#"{"Dict":{"b":{"Number":2.0},"a":{"Boolean":true}}}"#
    );
    assert_eq!(
        DValue::BinaryUtil(Binary::new(vec![0, 7, 42, 255])).to_json(),
        r#"{"Binary":[0,7,42,255]}"#
    );
}

#[test]
fn from_json_of_each_shape() {
    assert!(matches!(DValue::from_json(r#""None""#), DValue::Null));
    assert!(matches!(DValue::from_json(r#"{"None":null}"#), DValue::Null));
    assert_eq!(
        DValue::from_json(r#"{"String":"hi"}"#).as_string(),
        Some("hi".to_string())
    );
    assert_eq!(DValue::from_json(r#"{"Boolean":true}"#).as_bool(), Some(true));
    assert_eq!(DValue::from_json(r#" {"Number": 3} "#), num(3.0));
    assert_eq!(DValue::from_json(r#"{"Number":-2.5e3}"#), num(-2500.0));
    assert_eq!(
        DValue::from_json(r#"{"List":[{"Number":1.0},"None"]}"#),
        DValue::List(vec![num(1.0), DValue::Null])
    );
    assert_eq!(
        DValue::from_json(r#"{"Tuple":[{"Boolean":true},{"Number":1.0}]}"#),
        DValue::Tuple((Box::new(DValue::Boolean(true)), Box::new(num(1.0))))
    );
    let dict = DValue::from_json(r#"{"Dict":{"k":{"Number":1.0},"j":{"String":"x"}}}"#);
    assert_eq!(dict.to_string(), r#"{"k":1,"j":"x"}"#);
    let bin = DValue::from_json(r#"{"Binary":[1,2,255]}"#);
    match bin {
        DValue::BinaryUtil(b) => assert_eq!(b.read(), vec![1, 2, 255]),
        other => panic!("not a payload: {:?}", other),
    }
}

#[test]
fn from_json_of_wrong_documents_is_absent() {
    for text in [
        "",
        "nonsense",
        "null",
        "3",
        r#""String""#,
        r#"{"String":1}"#,
        r#"{"Number":"1"}"#,
        r#"{"Number":null}"#,
        r#"{"Boolean":0}"#,
        r#"{"List":{}}"#,
        r#"{"List":[{"Number":1.0},{"Oops":1}]}"#,
        r#"{"Tuple":[{"Number":1.0}]}"#,
        r#"{"Tuple":[{"Number":1.0},{"Number":1.0},{"Number":1.0}]}"#,
        r#"{"Binary":[256]}"#,
        r#"{"Binary":[-1]}"#,
        r#"{"Binary":[1.0]}"#,
        r#"{"Binary":[1,"2"]}"#,
        r#"{"Binary":{"data":[1,2]}}"#,
        r#"{"Binary":"AQI="}"#,
        r#"{"Unknown":1}"#,
        r#"{"Number":1.0,"String":"x"}"#,
        r#"{"Number":1.0} trailing"#,
    ] {
        assert!(
            matches!(DValue::from_json(text), DValue::Null),
            "{} was read",
            text
        );
    }
}

#[test]
fn json_round_trip_keeps_the_canonical_text() {
    let value = DValue::Dict(vec![
        (
            "list".to_string(),
            DValue::List(vec![num(1.0), num(-0.25), DValue::Null]),
        ),
        (
            "pair".to_string(),
            DValue::Tuple((
                Box::new(DValue::String("x \\ \" y".to_string())),
                Box::new(DValue::Boolean(false)),
            )),
        ),
        (
            "bytes".to_string(),
            DValue::BinaryUtil(Binary::new(vec![0, 9, 10, 99, 100, 255])),
        ),
    ]);
    let back = DValue::from_json(&value.to_json());
    assert_eq!(back.to_string(), value.to_string());
}

#[test]
fn decode_reads_a_tree() {
    let tree = Json::Object(vec![(
        "List".to_string(),
        Json::Array(vec![
            Json::Object(vec![("Number".to_string(), Json::Number("2.50".to_string()))]),
            Json::Text("None".to_string()),
        ]),
    )]);
    let value = DValue::decode(&tree).unwrap();
    assert_eq!(value.to_string(), "[2.5,none]");
    assert!(DValue::decode(&Json::Null).is_none());
    assert!(DValue::decode(&Json::Object(vec![])).is_none());
}

#[test]
fn decode_lets_a_later_key_win() {
    let tree = Json::Object(vec![(
        "Dict".to_string(),
        Json::Object(vec![
            ("a".to_string(), Json::Text("None".to_string())),
            ("b".to_string(), Json::Text("None".to_string())),
            (
                "a".to_string(),
                Json::Object(vec![("Boolean".to_string(), Json::Bool(true))]),
            ),
        ]),
    )]);
    let value = DValue::decode(&tree).unwrap();
    assert_eq!(value.to_string(), r#"{"a":true,"b":none}"#);
}

#[test]
fn encode_builds_the_tagged_tree() {
    let tree = DValue::Tuple((Box::new(num(2.0)), Box::new(DValue::Null))).encode();
    match tree {
        Json::Object(members) => {
            assert_eq!(members.len(), 1);
            assert_eq!(members[0].0, "Tuple");
            match &members[0].1 {
                Json::Array(items) => {
                    assert_eq!(items.len(), 2);
                    assert!(matches!(&items[1], Json::Text(t) if t == "None"));
                    match &items[0] {
                        Json::Object(inner) => {
                            assert_eq!(inner[0].0, "Number");
                            assert!(matches!(&inner[0].1, Json::Number(t) if t == "2.0"));
                        }
                        other => panic!("not an object: {:?}", other),
                    }
                }
                other => panic!("not an array: {:?}", other),
            }
        }
        other => panic!("not an object: {:?}", other),
    }
}
