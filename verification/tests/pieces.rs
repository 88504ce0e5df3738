use datastruct::dict::{dict_insert, find_key};
use datastruct::json::{
    byte_from_text, byte_to_text, decode_bytes, decode_entries, decode_items, digit_str,
    encode_bytes, encode_entries, encode_items, tag,
};
use datastruct::json_tree::Json;
use datastruct::render::{entries_to_string, items_to_string};
use datastruct::scan::{
    is_space_byte, lower_byte, same_text, skip_spaces, slice_text, starts_with,
    starts_with_any_case,
};
use datastruct::value::{duplicate_entries, duplicate_items, size_entries, size_items};
use datastruct::{DValue, Number, ValueParser};

fn num(x: f64) -> DValue {
    DValue::Number(Number::from_text(&x.to_string()).unwrap())
}

#[test]
fn scanning_reads_bytes() {
    assert_eq!(skip_spaces(b"a \t\r\n b", 1), 6);
    assert_eq!(skip_spaces(b"ab", 1), 1);
    assert_eq!(skip_spaces(b"  ", 0), 2);
    assert!(is_space_byte(b' '));
    assert!(!is_space_byte(0x0b));
    assert_eq!(lower_byte(b'A'), b'a');
    assert_eq!(lower_byte(b'Z'), b'z');
    assert_eq!(lower_byte(b'['), b'[');
    assert_eq!(lower_byte(b'a'), b'a');
    assert!(starts_with(b"xbinary!(", 1, "binary!("));
    assert!(!starts_with(b"xbinary!", 1, "binary!("));
    assert!(!starts_with(b"xBinary!(", 1, "binary!("));
    assert!(starts_with(b"abc", 3, ""));
    assert!(starts_with_any_case(b"xTrUe", 1, "true"));
    assert!(!starts_with_any_case(b"xTru", 1, "true"));
    assert!(!starts_with_any_case(b"xtrux", 1, "true"));
    assert!(same_text("héllo", "héllo"));
    assert!(!same_text("hello", "hellO"));
    assert!(!same_text("hello", "hell"));
    assert_eq!(slice_text("aéb", 1, 3), "é");
    assert_eq!(slice_text("aéb", 0, 4), "aéb");
    assert_eq!(slice_text("aéb", 3, 3), "");
}

#[test]
fn dictionaries_keep_each_key_once() {
    let mut entries: Vec<(String, DValue)> = Vec::new();
    dict_insert(&mut entries, "a".to_string(), num(1.0));
    dict_insert(&mut entries, "b".to_string(), num(2.0));
    dict_insert(&mut entries, "a".to_string(), num(3.0));
    assert_eq!(entries.len(), 2);
    assert_eq!(entries[0].0, "a");
    assert_eq!(entries[0].1, num(3.0));
    assert_eq!(entries[1].0, "b");
    assert_eq!(find_key(&entries, &"b".to_string()), Some(1));
    assert_eq!(find_key(&entries, &"a".to_string()), Some(0));
    assert_eq!(find_key(&entries, &"c".to_string()), None);
}

#[test]
fn readers_of_the_parts_give_positions() {
    let (items, end) = ValueParser::parse_items("[1, 2 ,3]", 1);
    assert_eq!(items, vec![num(1.0), num(2.0), num(3.0)]);
    assert_eq!(end, 8);
    let (items, end) = ValueParser::parse_items("[1,]", 1);
    assert_eq!(items, vec![num(1.0)]);
    assert_eq!(end, 2);
    let (items, end) = ValueParser::parse_items("[ ]", 1);
    assert!(items.is_empty());
    assert_eq!(end, 1);
    let (list, end) = ValueParser::parse_list("x[true]", 1).unwrap();
    assert_eq!(list, vec![DValue::Boolean(true)]);
    assert_eq!(end, 7);
    assert!(ValueParser::parse_list("x[true", 1).is_none());
    let (key, value, end) = ValueParser::parse_entry(" \"k\" : 1 ,", 0).unwrap();
    assert_eq!(key, "k");
    assert_eq!(value, num(1.0));
    assert_eq!(end, 9);
    assert!(ValueParser::parse_entry("k:1", 0).is_none());
    let (entries, end) = ValueParser::parse_entries("\"a\":1,\"a\":2,\"b\":3}", 0);
    assert_eq!(entries.len(), 2);
    assert_eq!(entries[0].1, num(2.0));
    assert_eq!(end, 17);
    let (dict, end) = ValueParser::parse_dict("{\"a\":[]}", 0).unwrap();
    assert_eq!(dict.len(), 1);
    assert_eq!(end, 8);
    let (pair, end) = ValueParser::parse_tuple("(1,\"x\") ", 0).unwrap();
    assert_eq!(*pair.0, num(1.0));
    assert_eq!(*pair.1, DValue::String("x".to_string()));
    assert_eq!(end, 7);
    assert!(ValueParser::parse_tuple("(1,2,3)", 0).is_none());
    let (v, end) = ValueParser::parse_bare("true ", 0).unwrap();
    assert_eq!(v, DValue::Boolean(true));
    assert_eq!(end, 4);
    assert!(ValueParser::parse_bare(" true", 0).is_none());
    assert_eq!(ValueParser::payload_end(b"ab)c", 0), 2);
    assert_eq!(ValueParser::payload_end(b"ab\\c", 0), 2);
    assert!(ValueParser::begins_number(b"-1", 0));
    assert!(ValueParser::begins_number(b"NaN", 0));
    assert!(ValueParser::begins_number(b"Infinity", 0));
    assert!(!ValueParser::begins_number(b"none", 0));
    assert!(!ValueParser::begins_number(b"", 0));
    assert!(ValueParser::hex_or_u(b'F'));
    assert!(!ValueParser::hex_or_u(b'g'));
}

#[test]
fn numbers_are_tried_before_words() {
    assert_eq!(DValue::from("nan").to_string(), "NaN");
    assert_eq!(DValue::from("INF").to_string(), "inf");
    let (rest, v) = ValueParser::parse("infinity").unwrap();
    assert_eq!(rest, "inity");
    assert_eq!(v.to_string(), "inf");
    assert!(matches!(DValue::from("infinity"), DValue::Null));
    assert_eq!(DValue::from("1e3").to_string(), "1000");
    assert_eq!(DValue::from("+.5").to_string(), "0.5");
    assert!(matches!(DValue::from("-inf"), DValue::Null));
    assert!(matches!(DValue::from("1e"), DValue::Null));
    assert!(matches!(DValue::from("."), DValue::Null));
}

#[test]
fn copies_sizes_and_texts_of_the_parts() {
    let items = vec![num(1.0), DValue::String("ab".to_string())];
    assert_eq!(duplicate_items(&items), items);
    assert_eq!(size_items(&items), 10);
    assert_eq!(items_to_string(&items), "1,\"ab\"");
    assert_eq!(items_to_string(&Vec::new()), "");
    let entries = vec![("k".to_string(), num(1.0)), ("l".to_string(), DValue::Boolean(true))];
    let copy = duplicate_entries(&entries);
    assert_eq!(copy.len(), 2);
    assert_eq!(copy[1].0, "l");
    assert_eq!(copy[1].1, DValue::Boolean(true));
    assert_eq!(size_entries(&entries), 9);
    assert_eq!(entries_to_string(&entries), "\"k\":1,\"l\":true");
    assert_eq!(entries_to_string(&Vec::new()), "");
    let deep = DValue::List(vec![DValue::Dict(entries), DValue::List(items)]);
    assert_eq!(deep.duplicate().to_string(), deep.to_string());
}

#[test]
fn bytes_are_written_in_decimal() {
    assert_eq!(digit_str(0), "0");
    assert_eq!(digit_str(9), "9");
    for b in 0..=255u8 {
        let text = byte_to_text(b);
        assert_eq!(text, b.to_string());
        assert_eq!(byte_from_text(&text), Some(b));
    }
    for text in ["", "256", "999", "1000", "01", "00", "-1", "1.0", "1e1", " 1", "a", "+1"] {
        assert_eq!(byte_from_text(text), None, "{:?}", text);
    }
}

#[test]
fn parts_of_the_json_form() {
    let tagged = tag("Boolean", Json::Bool(true));
    assert!(matches!(&tagged, Json::Object(m) if m.len() == 1 && m[0].0 == "Boolean"));
    let items = encode_items(&vec![DValue::Null, DValue::Boolean(false)]);
    assert_eq!(items.len(), 2);
    assert!(matches!(&items[0], Json::Text(t) if t == "None"));
    assert_eq!(decode_items(&items), Some(vec![DValue::Null, DValue::Boolean(false)]));
    assert!(decode_items(&vec![Json::Null]).is_none());
    let entries = encode_entries(&vec![("k".to_string(), DValue::Null)]);
    assert_eq!(entries.len(), 1);
    assert_eq!(entries[0].0, "k");
    let back = decode_entries(&entries).unwrap();
    assert_eq!(back.len(), 1);
    assert_eq!(back[0].0, "k");
    assert!(matches!(back[0].1, DValue::Null));
    assert!(decode_entries(&vec![("k".to_string(), Json::Bool(true))]).is_none());
    let bytes = encode_bytes(&vec![0, 10, 200]);
    assert!(matches!(&bytes[2], Json::Number(t) if t == "200"));
    assert_eq!(decode_bytes(&bytes), Some(vec![0, 10, 200]));
    assert!(decode_bytes(&vec![Json::Number("300".to_string())]).is_none());
    assert!(decode_bytes(&vec![Json::Text("1".to_string())]).is_none());
    let v = DValue::decode_variant("Number", &Json::Number("1e2".to_string())).unwrap();
    assert_eq!(v.to_string(), "100");
    assert!(DValue::decode_variant("Number", &Json::Text("1".to_string())).is_none());
    assert!(DValue::decode_variant("number", &Json::Number("1".to_string())).is_none());
}
