//! What holds of every value that the notation denotes.

use crate::base64_codec::base64_payload;
use crate::dict::{
    distinct_keys, lemma_with_entry_keeps, well_formed, well_formed_values, with_entry,
};
use crate::grammar::{
    bare_value_at, denoted, dict_at, document, entries_at, entry_at, items_at, list_at,
    more_entries_at, more_items_at, rest_len, spaces, string_at, tuple_at, value_at, COLON, COMMA,
    OPEN_BRACE, OPEN_BRACKET, OPEN_PAREN,
};
use crate::value::Datum;
use vstd::prelude::*;

verus! {

/// True where each of `items` is well formed.
pub open spec fn well_formed_items(items: Seq<Datum>) -> bool {
    forall|k: int| 0 <= k < items.len() ==> well_formed(#[trigger] items[k])
}

/// The value that stands at a place is well formed.
pub proof fn lemma_value_at_well_formed(s: Seq<u8>, i: int)
    ensures
        value_at(s, i) matches Some((v, _)) ==> well_formed(v),
    decreases rest_len(s, i), 3int,
{
    lemma_bare_value_at_well_formed(s, i + spaces(s, i));
}

/// The value that stands at a place, without whitespace, is well formed.
proof fn lemma_bare_value_at_well_formed(s: Seq<u8>, i: int)
    ensures
        bare_value_at(s, i) matches Some((v, _)) ==> well_formed(v),
    decreases rest_len(s, i), 2int,
{
    lemma_list_at_well_formed(s, i);
    lemma_dict_at_well_formed(s, i);
    lemma_tuple_at_well_formed(s, i);
}

/// The items of the list that stands at a place are well formed.
proof fn lemma_list_at_well_formed(s: Seq<u8>, i: int)
    ensures
        list_at(s, i) matches Some((items, _)) ==> well_formed_items(items),
    decreases rest_len(s, i), 1int,
{
    if 0 <= i < s.len() && s[i] == OPEN_BRACKET {
        lemma_items_at_well_formed(s, i + 1);
    }
}

/// The values that stand at a place, parted by commas, are well formed.
proof fn lemma_items_at_well_formed(s: Seq<u8>, i: int)
    ensures
        well_formed_items(items_at(s, i).0),
    decreases rest_len(s, i), 5int,
{
    lemma_value_at_well_formed(s, i);
    match value_at(s, i) {
        Some((v, n)) => {
            lemma_more_items_at_well_formed(s, i + n, seq![v], n);
        },
        None => {},
    }
}

/// The values that follow well-formed ones are well formed with them.
proof fn lemma_more_items_at_well_formed(s: Seq<u8>, i: int, items: Seq<Datum>, taken: nat)
    requires
        well_formed_items(items),
    ensures
        well_formed_items(more_items_at(s, i, items, taken).0),
    decreases rest_len(s, i), 4int,
{
    if 0 <= i < s.len() && s[i] == COMMA {
        lemma_value_at_well_formed(s, i + 1);
        match value_at(s, i + 1) {
            Some((v, n)) => {
                lemma_more_items_at_well_formed(s, i + 1 + n, items.push(v), taken + 1 + n);
            },
            None => {},
        }
    }
}

/// The value of the entry that stands at a place is well formed.
proof fn lemma_entry_at_well_formed(s: Seq<u8>, i: int)
    ensures
        entry_at(s, i) matches Some((_, v, _)) ==> well_formed(v),
    decreases rest_len(s, i), 4int,
{
    let lead = spaces(s, i);
    match string_at(s, i + lead) {
        Some((key, k)) => {
            let colon = i + lead + k + spaces(s, i + lead + k);
            if 0 <= colon < s.len() && s[colon] == COLON {
                lemma_value_at_well_formed(s, colon + 1);
            }
        },
        None => {},
    }
}

/// The dictionary that stands at a place holds no key twice, and well-formed
/// values.
proof fn lemma_dict_at_well_formed(s: Seq<u8>, i: int)
    ensures
        dict_at(s, i) matches Some((entries, _)) ==> distinct_keys(entries) && well_formed_values(
            entries,
        ),
    decreases rest_len(s, i), 1int,
{
    if 0 <= i < s.len() && s[i] == OPEN_BRACE {
        lemma_entries_at_well_formed(s, i + 1);
    }
}

/// The entries that stand at a place hold no key twice, and well-formed
/// values.
proof fn lemma_entries_at_well_formed(s: Seq<u8>, i: int)
    ensures
        distinct_keys(entries_at(s, i).0),
        well_formed_values(entries_at(s, i).0),
    decreases rest_len(s, i), 6int,
{
    lemma_entry_at_well_formed(s, i);
    match entry_at(s, i) {
        Some((key, v, n)) => {
            lemma_more_entries_at_well_formed(s, i + n, seq![(key, v)], n);
        },
        None => {},
    }
}

/// The entries that follow well-formed ones are well formed with them.
proof fn lemma_more_entries_at_well_formed(
    s: Seq<u8>,
    i: int,
    entries: Seq<(Seq<char>, Datum)>,
    taken: nat,
)
    requires
        distinct_keys(entries),
        well_formed_values(entries),
    ensures
        distinct_keys(more_entries_at(s, i, entries, taken).0),
        well_formed_values(more_entries_at(s, i, entries, taken).0),
    decreases rest_len(s, i), 5int,
{
    if 0 <= i < s.len() && s[i] == COMMA {
        lemma_entry_at_well_formed(s, i + 1);
        match entry_at(s, i + 1) {
            Some((key, v, n)) => {
                lemma_with_entry_keeps(entries, key, v);
                lemma_more_entries_at_well_formed(
                    s,
                    i + 1 + n,
                    with_entry(entries, key, v),
                    taken + 1 + n,
                );
            },
            None => {},
        }
    }
}

/// The members of the tuple that stands at a place are well formed.
proof fn lemma_tuple_at_well_formed(s: Seq<u8>, i: int)
    ensures
        tuple_at(s, i) matches Some((first, second, _)) ==> well_formed(first) && well_formed(
            second,
        ),
    decreases rest_len(s, i), 1int,
{
    if 0 <= i < s.len() && s[i] == OPEN_PAREN {
        lemma_value_at_well_formed(s, i + 1);
        match value_at(s, i + 1) {
            Some((first, a)) => {
                let comma = i + 1 + a;
                if comma < s.len() && s[comma] == COMMA {
                    lemma_value_at_well_formed(s, comma + 1);
                }
            },
            None => {},
        }
    }
}

/// Every value that a text denotes is well formed: no dictionary in it holds
/// a key twice.
pub proof fn lemma_denoted_well_formed(s: Seq<u8>)
    ensures
        well_formed(document(s)),
        well_formed(denoted(s)),
{
    lemma_value_at_well_formed(s, 0);
    match base64_payload(s.subrange(2, s.len() - 1)) {
        Some(inner) => {
            lemma_value_at_well_formed(inner, 0);
        },
        None => {},
    }
}

} // verus!
