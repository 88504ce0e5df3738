//! Values as JSON: each value is an object with one member, named by the
//! shape of the value, and the absent value is the text `"None"`. A payload
//! is the array of its bytes.

use crate::binary_util::Binary;
use crate::dict::{dict_insert, well_formed, with_entry};
use crate::grammar::is_digit;
use crate::json_laws::lemma_value_of_json_well_formed;
use crate::json_tree::{
    json_number_text, json_text, json_tree, member_trees, number_to_json, read_json, trees,
    write_json, Json, JsonTree,
};
use crate::number::{number_text, Number};
use crate::scan::same_text;
use crate::value::{entry_models, models, DValue, Datum};
use vstd::prelude::*;
use vstd::string::*;
use vstd::utf8::*;

verus! {

/// The text of a digit.
pub open spec fn digit_text(d: int) -> Seq<char> {
    if d == 0 {
        "0"@
    } else if d == 1 {
        "1"@
    } else if d == 2 {
        "2"@
    } else if d == 3 {
        "3"@
    } else if d == 4 {
        "4"@
    } else if d == 5 {
        "5"@
    } else if d == 6 {
        "6"@
    } else if d == 7 {
        "7"@
    } else if d == 8 {
        "8"@
    } else {
        "9"@
    }
}

/// The decimal text of a byte.
pub open spec fn byte_text(b: u8) -> Seq<char> {
    if b < 10 {
        digit_text(b as int)
    } else if b < 100 {
        digit_text(b as int / 10) + digit_text(b as int % 10)
    } else {
        digit_text(b as int / 100) + digit_text((b as int / 10) % 10) + digit_text(b as int % 10)
    }
}

/// The byte that the decimal text with the bytes `s` denotes: one to three
/// digits, without a zero in front of another digit, and 255 at most.
pub open spec fn byte_of_text(s: Seq<u8>) -> Option<u8> {
    if s.len() == 1 && is_digit(s[0]) {
        Some((s[0] - 0x30) as u8)
    } else if s.len() == 2 && is_digit(s[0]) && is_digit(s[1]) && s[0] != 0x30 {
        Some(((s[0] - 0x30) * 10 + (s[1] - 0x30)) as u8)
    } else if s.len() == 3 && is_digit(s[0]) && is_digit(s[1]) && is_digit(s[2]) && s[0] != 0x30
        && (s[0] - 0x30) * 100 + (s[1] - 0x30) * 10 + (s[2] - 0x30) <= 255 {
        Some(((s[0] - 0x30) * 100 + (s[1] - 0x30) * 10 + (s[2] - 0x30)) as u8)
    } else {
        None
    }
}

/// The object whose one member is `payload` under `name`.
pub open spec fn tagged(name: Seq<char>, payload: JsonTree) -> JsonTree {
    JsonTree::Object(seq![(name, payload)])
}

/// The JSON form of a number, by its decimal text; `null` where the number
/// is not finite.
pub open spec fn encoded_number(decimal: Seq<char>) -> JsonTree {
    match json_number_text(decimal) {
        Some(text) => JsonTree::Number(text),
        None => JsonTree::Null,
    }
}

/// The JSON form of a value.
pub open spec fn encoded(v: Datum) -> JsonTree
    decreases v,
{
    match v {
        Datum::Null => JsonTree::Text("None"@),
        Datum::String(text) => tagged("String"@, JsonTree::Text(text)),
        Datum::Number(decimal) => tagged("Number"@, encoded_number(decimal)),
        Datum::Boolean(truth) => tagged("Boolean"@, JsonTree::Bool(truth)),
        Datum::List(items) => tagged("List"@, JsonTree::Array(encoded_items(items))),
        Datum::Dict(entries) => tagged("Dict"@, JsonTree::Object(encoded_entries(entries))),
        Datum::Tuple(first, second) => tagged(
            "Tuple"@,
            JsonTree::Array(seq![encoded(*first), encoded(*second)]),
        ),
        Datum::Binary(data) => tagged("Binary"@, JsonTree::Array(encoded_bytes(data))),
    }
}

/// The JSON forms of `items`, in order.
pub open spec fn encoded_items(items: Seq<Datum>) -> Seq<JsonTree>
    decreases items,
{
    Seq::new(
        items.len(),
        |i: int|
            if 0 <= i < items.len() {
                encoded(items[i])
            } else {
                JsonTree::Null
            },
    )
}

/// The JSON forms of the values of `entries` under their keys, in order.
pub open spec fn encoded_entries(entries: Seq<(Seq<char>, Datum)>) -> Seq<(Seq<char>, JsonTree)>
    decreases entries,
{
    Seq::new(
        entries.len(),
        |i: int|
            if 0 <= i < entries.len() {
                (entries[i].0, encoded(entries[i].1))
            } else {
                (Seq::empty(), JsonTree::Null)
            },
    )
}

/// The bytes of a payload as JSON numbers, in order.
pub open spec fn encoded_bytes(data: Seq<u8>) -> Seq<JsonTree> {
    Seq::new(data.len(), |i: int| JsonTree::Number(byte_text(data[i])))
}

/// The value that a JSON document is the form of, if it is the form of one.
pub open spec fn decoded(tree: JsonTree) -> Option<Datum>
    decreases tree, 1nat,
{
    match tree {
        JsonTree::Text(text) => if text == "None"@ {
            Some(Datum::Null)
        } else {
            None
        },
        JsonTree::Object(members) => if members.len() == 1 {
            decoded_variant(members[0].0, members[0].1)
        } else {
            None
        },
        _ => None,
    }
}

/// The value of the shape called `name` that `payload` is the form of.
pub open spec fn decoded_variant(name: Seq<char>, payload: JsonTree) -> Option<Datum>
    decreases payload, 0nat,
{
    if name == "None"@ {
        match payload {
            JsonTree::Null => Some(Datum::Null),
            _ => None,
        }
    } else if name == "String"@ {
        match payload {
            JsonTree::Text(text) => Some(Datum::String(text)),
            _ => None,
        }
    } else if name == "Number"@ {
        match payload {
            JsonTree::Number(text) => match number_text(encode_utf8(text)) {
                Some(decimal) => Some(Datum::Number(decimal)),
                None => None,
            },
            _ => None,
        }
    } else if name == "Boolean"@ {
        match payload {
            JsonTree::Bool(truth) => Some(Datum::Boolean(truth)),
            _ => None,
        }
    } else if name == "List"@ {
        match payload {
            JsonTree::Array(items) => match decoded_items(items) {
                Some(values) => Some(Datum::List(values)),
                None => None,
            },
            _ => None,
        }
    } else if name == "Dict"@ {
        match payload {
            JsonTree::Object(members) => match decoded_entries(members) {
                Some(entries) => Some(Datum::Dict(entries)),
                None => None,
            },
            _ => None,
        }
    } else if name == "Tuple"@ {
        match payload {
            JsonTree::Array(items) => if items.len() == 2 {
                match (decoded(items[0]), decoded(items[1])) {
                    (Some(first), Some(second)) => Some(
                        Datum::Tuple(Box::new(first), Box::new(second)),
                    ),
                    _ => None,
                }
            } else {
                None
            },
            _ => None,
        }
    } else if name == "Binary"@ {
        match payload {
            JsonTree::Array(numbers) => match decoded_bytes(numbers) {
                Some(data) => Some(Datum::Binary(data)),
                None => None,
            },
            _ => None,
        }
    } else {
        None
    }
}

/// The values that `items` are the forms of, if each is the form of one.
pub open spec fn decoded_items(items: Seq<JsonTree>) -> Option<Seq<Datum>>
    decreases items,
{
    if items.len() == 0 {
        Some(Seq::empty())
    } else {
        match (decoded_items(items.drop_last()), decoded(items.last())) {
            (Some(values), Some(v)) => Some(values.push(v)),
            _ => None,
        }
    }
}

/// The entries that `members` are the forms of, if each is the form of one.
/// Where a key comes again, its value takes the place of the earlier one.
pub open spec fn decoded_entries(members: Seq<(Seq<char>, JsonTree)>) -> Option<
    Seq<(Seq<char>, Datum)>,
>
    decreases members,
{
    if members.len() == 0 {
        Some(Seq::empty())
    } else {
        match (decoded_entries(members.drop_last()), decoded(members.last().1)) {
            (Some(entries), Some(v)) => Some(with_entry(entries, members.last().0, v)),
            _ => None,
        }
    }
}

/// The byte that a JSON number is the form of.
pub open spec fn decoded_byte(tree: JsonTree) -> Option<u8> {
    match tree {
        JsonTree::Number(text) => byte_of_text(encode_utf8(text)),
        _ => None,
    }
}

/// The bytes that `numbers` are the forms of, if each is the form of one.
pub open spec fn decoded_bytes(numbers: Seq<JsonTree>) -> Option<Seq<u8>>
    decreases numbers.len(),
{
    if numbers.len() == 0 {
        Some(Seq::empty())
    } else {
        match (decoded_bytes(numbers.drop_last()), decoded_byte(numbers.last())) {
            (Some(data), Some(b)) => Some(data.push(b)),
            _ => None,
        }
    }
}

/// The JSON text of a value; the text `None` where none can be written.
pub open spec fn json_of(v: Datum) -> Seq<char> {
    match json_text(encoded(v)) {
        Some(text) => text,
        None => "None"@,
    }
}

/// The value that a JSON text is the form of; the absent value where it is
/// the form of none.
pub open spec fn value_of_json(text: Seq<char>) -> Datum {
    match json_tree(text) {
        Some(tree) => match decoded(tree) {
            Some(v) => v,
            None => Datum::Null,
        },
        None => Datum::Null,
    }
}

/// A failure among the first `k` items is a failure of all.
proof fn lemma_decoded_items_prefix(items: Seq<JsonTree>, k: int)
    requires
        0 <= k <= items.len(),
        decoded_items(items.take(k)) is None,
    ensures
        decoded_items(items) is None,
    decreases items.len(),
{
    if k == items.len() {
        assert(items.take(k) =~= items);
    } else {
        assert(items.drop_last().take(k) =~= items.take(k));
        lemma_decoded_items_prefix(items.drop_last(), k);
    }
}

/// A failure among the first `k` members is a failure of all.
proof fn lemma_decoded_entries_prefix(members: Seq<(Seq<char>, JsonTree)>, k: int)
    requires
        0 <= k <= members.len(),
        decoded_entries(members.take(k)) is None,
    ensures
        decoded_entries(members) is None,
    decreases members.len(),
{
    if k == members.len() {
        assert(members.take(k) =~= members);
    } else {
        assert(members.drop_last().take(k) =~= members.take(k));
        lemma_decoded_entries_prefix(members.drop_last(), k);
    }
}

/// A failure among the first `k` numbers is a failure of all.
proof fn lemma_decoded_bytes_prefix(numbers: Seq<JsonTree>, k: int)
    requires
        0 <= k <= numbers.len(),
        decoded_bytes(numbers.take(k)) is None,
    ensures
        decoded_bytes(numbers) is None,
    decreases numbers.len(),
{
    if k == numbers.len() {
        assert(numbers.take(k) =~= numbers);
    } else {
        assert(numbers.drop_last().take(k) =~= numbers.take(k));
        lemma_decoded_bytes_prefix(numbers.drop_last(), k);
    }
}

/// The text of the digit `d`.
pub fn digit_str(d: u8) -> (r: &'static str)
    requires
        d < 10,
    ensures
        r@ == digit_text(d as int),
{
    if d == 0 {
        "0"
    } else if d == 1 {
        "1"
    } else if d == 2 {
        "2"
    } else if d == 3 {
        "3"
    } else if d == 4 {
        "4"
    } else if d == 5 {
        "5"
    } else if d == 6 {
        "6"
    } else if d == 7 {
        "7"
    } else if d == 8 {
        "8"
    } else {
        "9"
    }
}

/// The decimal text of `b`.
pub fn byte_to_text(b: u8) -> (r: String)
    ensures
        r@ == byte_text(b),
{
    if b < 10 {
        String::from_str(digit_str(b))
    } else if b < 100 {
        let mut out = String::from_str(digit_str(b / 10));
        out.append(digit_str(b % 10));
        out
    } else {
        let mut out = String::from_str(digit_str(b / 100));
        out.append(digit_str((b / 10) % 10));
        out.append(digit_str(b % 10));
        out
    }
}

/// The byte that the decimal text `text` denotes.
pub fn byte_from_text(text: &str) -> (r: Option<u8>)
    ensures
        r == byte_of_text(text.spec_bytes()),
{
    let s = text.as_bytes();
    let n = s.len();
    if n == 0 || n > 3 {
        return None;
    }
    let mut k: usize = 0;
    while k < n
        invariant
            k <= n,
            1 <= n <= 3,
            n == s@.len(),
            s@ == text.spec_bytes(),
            forall|j: int| 0 <= j < k ==> is_digit(#[trigger] s@[j]),
        decreases n - k,
    {
        if !(0x30 <= s[k] && s[k] <= 0x39) {
            return None;
        }
        k += 1;
    }
    if n == 1 {
        Some(s[0] - 0x30)
    } else if s[0] == 0x30 {
        None
    } else if n == 2 {
        Some((s[0] - 0x30) * 10 + (s[1] - 0x30))
    } else {
        let hundreds: u16 = (s[0] - 0x30) as u16;
        let tens: u16 = (s[1] - 0x30) as u16;
        let ones: u16 = (s[2] - 0x30) as u16;
        let total: u16 = hundreds * 100 + tens * 10 + ones;
        if total <= 255 {
            Some(total as u8)
        } else {
            None
        }
    }
}

/// The object whose one member is `payload` under `name`.
pub fn tag(name: &str, payload: Json) -> (r: Json)
    ensures
        r@ == tagged(name@, payload@),
{
    let mut members: Vec<(String, Json)> = Vec::new();
    members.push((String::from_str(name), payload));
    assert(member_trees(members@) =~= seq![(name@, payload@)]);
    Json::Object(members)
}

/// The JSON forms of `items`, in order.
pub fn encode_items(items: &Vec<DValue>) -> (r: Vec<Json>)
    ensures
        trees(r@) == encoded_items(models(items@)),
    decreases items,
{
    let mut out: Vec<Json> = Vec::new();
    let mut i: usize = 0;
    while i < items.len()
        invariant
            i <= items@.len(),
            out@.len() == i,
            forall|k: int| 0 <= k < i ==> (#[trigger] out@[k]).model() == encoded(items@[k].model()),
        decreases items@.len() - i,
    {
        out.push(items[i].encode());
        i += 1;
    }
    assert(trees(out@) =~= encoded_items(models(items@)));
    out
}

/// The JSON forms of the values of `entries` under their keys, in order.
pub fn encode_entries(entries: &Vec<(String, DValue)>) -> (r: Vec<(String, Json)>)
    ensures
        member_trees(r@) == encoded_entries(entry_models(entries@)),
    decreases entries,
{
    let mut out: Vec<(String, Json)> = Vec::new();
    let mut i: usize = 0;
    while i < entries.len()
        invariant
            i <= entries@.len(),
            out@.len() == i,
            forall|k: int|
                0 <= k < i ==> (#[trigger] out@[k]).0@ == entries@[k].0@ && out@[k].1.model()
                    == encoded(entries@[k].1.model()),
        decreases entries@.len() - i,
    {
        let entry = &entries[i];
        out.push((entry.0.clone(), entry.1.encode()));
        i += 1;
    }
    assert(member_trees(out@) =~= encoded_entries(entry_models(entries@)));
    out
}

/// The bytes of `data` as JSON numbers, in order.
pub fn encode_bytes(data: &Vec<u8>) -> (r: Vec<Json>)
    ensures
        trees(r@) == encoded_bytes(data@),
{
    let mut out: Vec<Json> = Vec::new();
    let mut i: usize = 0;
    while i < data.len()
        invariant
            i <= data@.len(),
            out@.len() == i,
            forall|k: int|
                0 <= k < i ==> (#[trigger] out@[k]).model() == JsonTree::Number(
                    byte_text(data@[k]),
                ),
        decreases data@.len() - i,
    {
        out.push(Json::Number(byte_to_text(data[i])));
        i += 1;
    }
    assert(trees(out@) =~= encoded_bytes(data@));
    out
}

/// The values that `items` are the forms of, if each is the form of one.
pub fn decode_items(items: &Vec<Json>) -> (r: Option<Vec<DValue>>)
    ensures
        match decoded_items(trees(items@)) {
            Some(values) => r matches Some(list) && models(list@) == values,
            None => r is None,
        },
    decreases items,
{
    let ghost all = trees(items@);
    let mut out: Vec<DValue> = Vec::new();
    let mut i: usize = 0;
    assert(models(out@) =~= Seq::<Datum>::empty());
    while i < items.len()
        invariant
            i <= items@.len(),
            all == trees(items@),
            decoded_items(all.take(i as int)) == Some(models(out@)),
        decreases items@.len() - i,
    {
        proof {
            assert(all.take(i + 1).drop_last() =~= all.take(i as int));
            assert(all.take(i + 1).last() == all[i as int]);
        }
        match DValue::decode(&items[i]) {
            Some(value) => {
                let ghost before = models(out@);
                out.push(value);
                assert(models(out@) =~= before.push(value@));
            },
            None => {
                proof {
                    lemma_decoded_items_prefix(all, i + 1);
                }
                return None;
            },
        }
        i += 1;
    }
    assert(all.take(i as int) =~= all);
    Some(out)
}

/// The entries that `members` are the forms of, if each is the form of one.
pub fn decode_entries(members: &Vec<(String, Json)>) -> (r: Option<Vec<(String, DValue)>>)
    ensures
        match decoded_entries(member_trees(members@)) {
            Some(entries) => r matches Some(dict) && entry_models(dict@) == entries,
            None => r is None,
        },
    decreases members,
{
    let ghost all = member_trees(members@);
    let mut out: Vec<(String, DValue)> = Vec::new();
    let mut i: usize = 0;
    assert(entry_models(out@) =~= Seq::<(Seq<char>, Datum)>::empty());
    while i < members.len()
        invariant
            i <= members@.len(),
            all == member_trees(members@),
            decoded_entries(all.take(i as int)) == Some(entry_models(out@)),
        decreases members@.len() - i,
    {
        proof {
            assert(all.take(i + 1).drop_last() =~= all.take(i as int));
            assert(all.take(i + 1).last() == all[i as int]);
        }
        let member = &members[i];
        match DValue::decode(&member.1) {
            Some(value) => {
                dict_insert(&mut out, member.0.clone(), value);
            },
            None => {
                proof {
                    lemma_decoded_entries_prefix(all, i + 1);
                }
                return None;
            },
        }
        i += 1;
    }
    assert(all.take(i as int) =~= all);
    Some(out)
}

/// The bytes that `numbers` are the forms of, if each is the form of one.
pub fn decode_bytes(numbers: &Vec<Json>) -> (r: Option<Vec<u8>>)
    ensures
        match decoded_bytes(trees(numbers@)) {
            Some(data) => r matches Some(bytes) && bytes@ == data,
            None => r is None,
        },
{
    let ghost all = trees(numbers@);
    let mut out: Vec<u8> = Vec::new();
    let mut i: usize = 0;
    while i < numbers.len()
        invariant
            i <= numbers@.len(),
            all == trees(numbers@),
            decoded_bytes(all.take(i as int)) == Some(out@),
        decreases numbers@.len() - i,
    {
        proof {
            assert(all.take(i + 1).drop_last() =~= all.take(i as int));
            assert(all.take(i + 1).last() == all[i as int]);
        }
        let byte = match &numbers[i] {
            Json::Number(text) => byte_from_text(text.as_str()),
            _ => None,
        };
        match byte {
            Some(b) => {
                out.push(b);
            },
            None => {
                proof {
                    lemma_decoded_bytes_prefix(all, i + 1);
                }
                return None;
            },
        }
        i += 1;
    }
    assert(all.take(i as int) =~= all);
    Some(out)
}

impl DValue {
    /// The JSON form of the value.
    pub fn encode(&self) -> (r: Json)
        ensures
            r@ == encoded(self@),
        decreases self,
    {
        match self {
            DValue::Null => Json::Text(String::from_str("None")),
            DValue::String(text) => tag("String", Json::Text(text.clone())),
            DValue::Number(number) => {
                let decimal = number.text();
                let payload = match number_to_json(decimal.as_str()) {
                    Some(text) => Json::Number(text),
                    None => Json::Null,
                };
                tag("Number", payload)
            },
            DValue::Boolean(truth) => tag("Boolean", Json::Bool(*truth)),
            DValue::List(items) => tag("List", Json::Array(encode_items(items))),
            DValue::Dict(entries) => tag("Dict", Json::Object(encode_entries(entries))),
            DValue::Tuple(pair) => {
                let mut members: Vec<Json> = Vec::new();
                members.push(pair.0.encode());
                members.push(pair.1.encode());
                assert(trees(members@) =~= seq![encoded(pair.0@), encoded(pair.1@)]);
                tag("Tuple", Json::Array(members))
            },
            DValue::BinaryUtil(payload) => {
                let data = payload.read();
                tag("Binary", Json::Array(encode_bytes(&data)))
            },
        }
    }

    /// The value that `j` is the JSON form of, if it is the form of one.
    pub fn decode(j: &Json) -> (r: Option<DValue>)
        ensures
            match decoded(j@) {
                Some(v) => r matches Some(d) && d@ == v,
                None => r is None,
            },
        decreases j, 1nat,
    {
        match j {
            Json::Text(text) => if same_text(text.as_str(), "None") {
                Some(DValue::Null)
            } else {
                None
            },
            Json::Object(members) => if members.len() == 1 {
                let member = &members[0];
                Self::decode_variant(member.0.as_str(), &member.1)
            } else {
                None
            },
            _ => None,
        }
    }

    /// The value of the shape called `name` that `payload` is the form of.
    pub fn decode_variant(name: &str, payload: &Json) -> (r: Option<DValue>)
        ensures
            match decoded_variant(name@, payload@) {
                Some(v) => r matches Some(d) && d@ == v,
                None => r is None,
            },
        decreases payload, 0nat,
    {
        if same_text(name, "None") {
            match payload {
                Json::Null => Some(DValue::Null),
                _ => None,
            }
        } else if same_text(name, "String") {
            match payload {
                Json::Text(text) => Some(DValue::String(text.clone())),
                _ => None,
            }
        } else if same_text(name, "Number") {
            match payload {
                Json::Number(text) => match Number::from_text(text.as_str()) {
                    Some(number) => Some(DValue::Number(number)),
                    None => None,
                },
                _ => None,
            }
        } else if same_text(name, "Boolean") {
            match payload {
                Json::Bool(truth) => Some(DValue::Boolean(*truth)),
                _ => None,
            }
        } else if same_text(name, "List") {
            match payload {
                Json::Array(items) => match decode_items(items) {
                    Some(values) => Some(DValue::List(values)),
                    None => None,
                },
                _ => None,
            }
        } else if same_text(name, "Dict") {
            match payload {
                Json::Object(members) => match decode_entries(members) {
                    Some(entries) => Some(DValue::Dict(entries)),
                    None => None,
                },
                _ => None,
            }
        } else if same_text(name, "Tuple") {
            match payload {
                Json::Array(items) => if items.len() == 2 {
                    match (Self::decode(&items[0]), Self::decode(&items[1])) {
                        (Some(first), Some(second)) => Some(
                            DValue::Tuple((Box::new(first), Box::new(second))),
                        ),
                        _ => None,
                    }
                } else {
                    None
                },
                _ => None,
            }
        } else if same_text(name, "Binary") {
            match payload {
                Json::Array(numbers) => match decode_bytes(numbers) {
                    Some(data) => Some(DValue::BinaryUtil(Binary::new(data))),
                    None => None,
                },
                _ => None,
            }
        } else {
            None
        }
    }

    /// The JSON text of the value; the text `None` where none can be written.
    pub fn to_json(&self) -> (r: String)
        ensures
            r@ == json_of(self@),
    {
        match write_json(&self.encode()) {
            Some(text) => text,
            None => String::from_str("None"),
        }
    }

    /// The value that the JSON text `data` is the form of; the absent value
    /// where it is the form of none.
    pub fn from_json(data: &str) -> (r: DValue)
        ensures
            r@ == value_of_json(data@),
            well_formed(r@),
    {
        proof {
            lemma_value_of_json_well_formed(data@);
        }
        match read_json(data) {
            Some(tree) => match Self::decode(&tree) {
                Some(value) => value,
                None => DValue::Null,
            },
            None => DValue::Null,
        }
    }
}

} // verus!
