//! What holds of the JSON form of values.

use crate::dict::{
    distinct_keys, lemma_with_entry_keeps, lemma_with_entry_new, well_formed, well_formed_values,
};
use crate::grammar_laws::well_formed_items;
use crate::json::{
    byte_of_text, byte_text, decoded, decoded_byte, decoded_bytes, decoded_entries, decoded_items,
    decoded_variant, digit_text, encoded, encoded_bytes, encoded_entries, encoded_items, json_of,
    value_of_json,
};
use crate::json_tree::{json_number_text, json_text, json_tree, JsonTree};
use crate::number::number_text;
use crate::render::render;
use crate::value::Datum;
use vstd::prelude::*;
use vstd::utf8::*;

verus! {

/// The value that a JSON document is the form of is well formed.
pub proof fn lemma_decoded_well_formed(tree: JsonTree)
    ensures
        decoded(tree) matches Some(v) ==> well_formed(v),
    decreases tree, 1nat,
{
    match tree {
        JsonTree::Object(members) => {
            if members.len() == 1 {
                lemma_decoded_variant_well_formed(members[0].0, members[0].1);
            }
        },
        _ => {},
    }
}

/// The value of a named shape that a JSON document is the form of is well
/// formed.
proof fn lemma_decoded_variant_well_formed(name: Seq<char>, payload: JsonTree)
    ensures
        decoded_variant(name, payload) matches Some(v) ==> well_formed(v),
    decreases payload, 0nat,
{
    match payload {
        JsonTree::Array(items) => {
            lemma_decoded_items_well_formed(items);
            if items.len() == 2 {
                lemma_decoded_well_formed(items[0]);
                lemma_decoded_well_formed(items[1]);
            }
        },
        JsonTree::Object(members) => {
            lemma_decoded_entries_well_formed(members);
        },
        _ => {},
    }
}

/// The values that JSON documents are the forms of are well formed.
proof fn lemma_decoded_items_well_formed(items: Seq<JsonTree>)
    ensures
        decoded_items(items) matches Some(values) ==> well_formed_items(values),
    decreases items,
{
    if items.len() > 0 {
        lemma_decoded_items_well_formed(items.drop_last());
        lemma_decoded_well_formed(items.last());
    }
}

/// The entries that the members of a JSON object are the forms of hold no
/// key twice, and well-formed values.
proof fn lemma_decoded_entries_well_formed(members: Seq<(Seq<char>, JsonTree)>)
    ensures
        decoded_entries(members) matches Some(entries) ==> distinct_keys(entries)
            && well_formed_values(entries),
    decreases members,
{
    if members.len() > 0 {
        lemma_decoded_entries_well_formed(members.drop_last());
        lemma_decoded_well_formed(members.last().1);
        match (decoded_entries(members.drop_last()), decoded(members.last().1)) {
            (Some(entries), Some(v)) => {
                lemma_with_entry_keeps(entries, members.last().0, v);
            },
            _ => {},
        }
    }
}

/// Every value that a JSON text is the form of is well formed.
pub proof fn lemma_value_of_json_well_formed(text: Seq<char>)
    ensures
        well_formed(value_of_json(text)),
{
    match json_tree(text) {
        Some(tree) => {
            lemma_decoded_well_formed(tree);
        },
        None => {},
    }
}

/// The names of the shapes differ from each other.
proof fn lemma_names_differ()
    ensures
        "None"@ != "String"@,
        "None"@ != "Number"@,
        "None"@ != "Boolean"@,
        "None"@ != "List"@,
        "None"@ != "Dict"@,
        "None"@ != "Tuple"@,
        "None"@ != "Binary"@,
        "String"@ != "Number"@,
        "String"@ != "Boolean"@,
        "String"@ != "List"@,
        "String"@ != "Dict"@,
        "String"@ != "Tuple"@,
        "String"@ != "Binary"@,
        "Number"@ != "Boolean"@,
        "Number"@ != "List"@,
        "Number"@ != "Dict"@,
        "Number"@ != "Tuple"@,
        "Number"@ != "Binary"@,
        "Boolean"@ != "List"@,
        "Boolean"@ != "Dict"@,
        "Boolean"@ != "Tuple"@,
        "Boolean"@ != "Binary"@,
        "List"@ != "Dict"@,
        "List"@ != "Tuple"@,
        "List"@ != "Binary"@,
        "Dict"@ != "Tuple"@,
        "Dict"@ != "Binary"@,
        "Tuple"@ != "Binary"@,
{
    reveal_strlit("None");
    reveal_strlit("String");
    reveal_strlit("Number");
    reveal_strlit("Boolean");
    reveal_strlit("List");
    reveal_strlit("Dict");
    reveal_strlit("Tuple");
    reveal_strlit("Binary");
    assert("None"@.len() == 4);
    assert("Number"@.len() == 6);
    assert("None"@[0] == 'N');
    assert("String"@[0] == 'S');
    assert("Number"@[0] == 'N');
    assert("Boolean"@[0] == 'B');
    assert("Boolean"@[1] == 'o');
    assert("List"@[0] == 'L');
    assert("Dict"@[0] == 'D');
    assert("Tuple"@[0] == 'T');
    assert("Binary"@[0] == 'B');
    assert("Binary"@[1] == 'i');
}

/// The decimal text of a byte denotes that byte.
pub proof fn lemma_byte_text_returns(b: u8)
    ensures
        byte_of_text(encode_utf8(byte_text(b))) == Some(b),
{
    reveal_strlit("0");
    reveal_strlit("1");
    reveal_strlit("2");
    reveal_strlit("3");
    reveal_strlit("4");
    reveal_strlit("5");
    reveal_strlit("6");
    reveal_strlit("7");
    reveal_strlit("8");
    reveal_strlit("9");
    assert forall|d: int| 0 <= d <= 9 implies (#[trigger] digit_text(d)).len() == 1 && digit_text(
        d,
    )[0] as int == 0x30 + d by {}
    let text = byte_text(b);
    let h = b as int / 100;
    let t = (b as int / 10) % 10;
    let o = b as int % 10;
    if b < 10 {
        assert(text == digit_text(b as int));
    } else if b < 100 {
        assert(text == digit_text(b as int / 10) + digit_text(o));
        assert(text.len() == 2);
        assert(text[0] == digit_text(b as int / 10)[0]);
        assert(text[1] == digit_text(o)[0]);
    } else {
        assert(text == digit_text(h) + digit_text(t) + digit_text(o));
        assert(text.len() == 3);
        assert(text[0] == digit_text(h)[0]);
        assert(text[1] == digit_text(t)[0]);
        assert(text[2] == digit_text(o)[0]);
    }
    assert(is_ascii_chars(text));
    is_ascii_chars_encode_utf8(text);
    let s = encode_utf8(text);
    assert(s.len() == text.len());
    assert(forall|i: int| 0 <= i < text.len() ==> s[i] == text[i] as u8);
}

/// The numbers that the bytes of a payload are written as denote these bytes.
proof fn lemma_decoded_encoded_bytes(data: Seq<u8>)
    ensures
        decoded_bytes(encoded_bytes(data)) == Some(data),
    decreases data.len(),
{
    if data.len() > 0 {
        lemma_decoded_encoded_bytes(data.drop_last());
        assert(encoded_bytes(data).drop_last() =~= encoded_bytes(data.drop_last()));
        lemma_byte_text_returns(data.last());
        assert(decoded_byte(encoded_bytes(data).last()) == Some(data.last()));
        assert(data.drop_last().push(data.last()) =~= data);
    } else {
        assert(data =~= Seq::<u8>::empty());
    }
}

/// True of the decimal texts of numbers that are read back from their JSON
/// text.
pub open spec fn number_returns(decimal: Seq<char>) -> bool {
    json_number_text(decimal) matches Some(text) && number_text(encode_utf8(text)) == Some(decimal)
}

/// True of the values in which every number is read back from its JSON text.
pub open spec fn numbers_return(v: Datum) -> bool
    decreases v,
{
    match v {
        Datum::Number(decimal) => number_returns(decimal),
        Datum::List(items) => forall|i: int|
            0 <= i < items.len() ==> numbers_return(#[trigger] items[i]),
        Datum::Dict(entries) => forall|i: int|
            0 <= i < entries.len() ==> numbers_return((#[trigger] entries[i]).1),
        Datum::Tuple(first, second) => numbers_return(*first) && numbers_return(*second),
        _ => true,
    }
}

/// A well-formed value whose numbers are read back from their JSON text is
/// the value that its JSON form is the form of.
pub proof fn lemma_decoded_encoded(v: Datum)
    requires
        well_formed(v),
        numbers_return(v),
    ensures
        decoded(encoded(v)) == Some(v),
    decreases v,
{
    lemma_names_differ();
    match v {
        Datum::Null => {},
        Datum::String(text) => {},
        Datum::Number(decimal) => {},
        Datum::Boolean(truth) => {},
        Datum::List(items) => {
            lemma_decoded_encoded_items(items);
        },
        Datum::Dict(entries) => {
            lemma_decoded_encoded_entries(entries);
        },
        Datum::Tuple(first, second) => {
            lemma_decoded_encoded(*first);
            lemma_decoded_encoded(*second);
        },
        Datum::Binary(data) => {
            lemma_decoded_encoded_bytes(data);
        },
    }
}

/// The same of the items of a list.
proof fn lemma_decoded_encoded_items(items: Seq<Datum>)
    requires
        forall|i: int| 0 <= i < items.len() ==> well_formed(#[trigger] items[i]),
        forall|i: int| 0 <= i < items.len() ==> numbers_return(#[trigger] items[i]),
    ensures
        decoded_items(encoded_items(items)) == Some(items),
    decreases items,
{
    if items.len() > 0 {
        lemma_decoded_encoded_items(items.drop_last());
        lemma_decoded_encoded(items.last());
        assert(encoded_items(items).drop_last() =~= encoded_items(items.drop_last()));
        assert(encoded_items(items).last() == encoded(items.last()));
        assert(items.drop_last().push(items.last()) =~= items);
    } else {
        assert(items =~= Seq::<Datum>::empty());
    }
}

/// The same of the entries of a dictionary.
proof fn lemma_decoded_encoded_entries(entries: Seq<(Seq<char>, Datum)>)
    requires
        distinct_keys(entries),
        forall|i: int| 0 <= i < entries.len() ==> well_formed((#[trigger] entries[i]).1),
        forall|i: int| 0 <= i < entries.len() ==> numbers_return((#[trigger] entries[i]).1),
    ensures
        decoded_entries(encoded_entries(entries)) == Some(entries),
    decreases entries,
{
    if entries.len() > 0 {
        let front = entries.drop_last();
        let last = entries.last();
        lemma_decoded_encoded_entries(front);
        lemma_decoded_encoded(last.1);
        assert(encoded_entries(entries).drop_last() =~= encoded_entries(front));
        assert(encoded_entries(entries).last() == (last.0, encoded(last.1)));
        assert forall|i: int| 0 <= i < front.len() implies (#[trigger] front[i]).0 != last.0 by {
            assert(front[i] == entries[i]);
        }
        lemma_with_entry_new(front, last.0, last.1);
        assert(front.push(last) =~= entries);
    } else {
        assert(entries =~= Seq::<(Seq<char>, Datum)>::empty());
    }
}

/// Writing a value as JSON and reading the text back gives the value again,
/// and so a value with the same canonical text. This holds of a well-formed
/// value whose numbers are read back from their JSON text, where the JSON
/// writer writes the form of the value and the JSON reader reads that text
/// as the same form.
pub proof fn lemma_json_round_trip(v: Datum)
    requires
        well_formed(v),
        numbers_return(v),
        json_text(encoded(v)) matches Some(text) && json_tree(text) == Some(encoded(v)),
    ensures
        value_of_json(json_of(v)) == v,
        render(value_of_json(json_of(v))) == render(v),
{
    lemma_decoded_encoded(v);
}

} // verus!
