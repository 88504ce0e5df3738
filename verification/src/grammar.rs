//! The notation of values, as a function on the bytes of a text.
//!
//! A text is read through its UTF-8 form. Each function here takes the bytes
//! `s` of the whole text and a position `i` in it, and says what stands at
//! `i`: the value read and the number of bytes that it is written with.

use crate::base64_codec::base64_payload;
use crate::dict::with_entry;
use crate::number::number_prefix;
use crate::value::Datum;
use vstd::prelude::*;
use vstd::utf8::*;

verus! {

pub const QUOTE: u8 = 0x22;

pub const BACKSLASH: u8 = 0x5c;

pub const COMMA: u8 = 0x2c;

pub const COLON: u8 = 0x3a;

pub const OPEN_BRACKET: u8 = 0x5b;

pub const CLOSE_BRACKET: u8 = 0x5d;

pub const OPEN_BRACE: u8 = 0x7b;

pub const CLOSE_BRACE: u8 = 0x7d;

pub const OPEN_PAREN: u8 = 0x28;

pub const CLOSE_PAREN: u8 = 0x29;

/// Space, tab, carriage return and line feed.
pub open spec fn is_space(b: u8) -> bool {
    b == 0x20 || b == 0x09 || b == 0x0d || b == 0x0a
}

/// The ASCII control characters.
pub open spec fn is_control(b: u8) -> bool {
    b < 0x20 || b == 0x7f
}

/// A byte that may stand in a text as it is.
pub open spec fn is_plain(b: u8) -> bool {
    b != BACKSLASH && b != QUOTE && !is_control(b)
}

/// A byte that may stand in the base64 text of a payload.
pub open spec fn is_payload_byte(b: u8) -> bool {
    b != BACKSLASH && b != CLOSE_PAREN && !is_control(b)
}

/// A hexadecimal digit, or the letter `u`.
pub open spec fn is_hex_or_u(b: u8) -> bool {
    (0x30 <= b <= 0x39) || (0x61 <= b <= 0x66) || (0x41 <= b <= 0x46) || b == 0x75
}

/// One of the characters that a backslash may stand before by itself.
pub open spec fn is_simple_escape(b: u8) -> bool {
    b == QUOTE || b == BACKSLASH || b == 0x2f || b == 0x62 || b == 0x66 || b == 0x6e || b == 0x72
        || b == 0x74
}

/// An upper-case ASCII letter as its lower-case letter, any other byte as it is.
pub open spec fn lower(b: u8) -> u8 {
    if 0x41 <= b <= 0x5a {
        (b + 0x20) as u8
    } else {
        b
    }
}

/// The number of bytes of `s` from `i` on.
pub open spec fn rest_len(s: Seq<u8>, i: int) -> nat {
    if i <= s.len() {
        (s.len() - i) as nat
    } else {
        0
    }
}

/// The number of whitespace bytes that stand at `i`.
pub open spec fn spaces(s: Seq<u8>, i: int) -> nat
    decreases s.len() - i,
{
    if 0 <= i < s.len() && is_space(s[i]) {
        1 + spaces(s, i + 1)
    } else {
        0
    }
}

/// True where the bytes of `word` stand at `i`.
pub open spec fn has_word(s: Seq<u8>, i: int, word: Seq<char>) -> bool {
    let w = encode_utf8(word);
    0 <= i && i + w.len() <= s.len() && s.subrange(i, i + w.len()) == w
}

/// True where the bytes of `word` stand at `i` in upper or lower case.
pub open spec fn has_word_any_case(s: Seq<u8>, i: int, word: Seq<char>) -> bool {
    let w = encode_utf8(word);
    0 <= i && i + w.len() <= s.len() && forall|k: int|
        0 <= k < w.len() ==> lower(#[trigger] s[i + k]) == lower(w[k])
}

/// True where each of the `n` bytes from `i` is a hexadecimal digit or `u`.
pub open spec fn all_hex_or_u(s: Seq<u8>, i: int, n: int) -> bool {
    0 <= i && i + n <= s.len() && forall|k: int| i <= k < i + n ==> is_hex_or_u(#[trigger] s[k])
}

/// The length of the escape that stands at `i`, behind a backslash: one of
/// the simple escapes, or `u` and four more bytes, each a hexadecimal digit
/// or `u`.
pub open spec fn escape_len(s: Seq<u8>, i: int) -> Option<nat> {
    if 0 <= i < s.len() && is_simple_escape(s[i]) {
        Some(1)
    } else if 0 <= i < s.len() && s[i] == 0x75 && all_hex_or_u(s, i, 5) {
        Some(5)
    } else {
        None
    }
}

/// The length of the text that stands at `i` and ends before a double quote:
/// plain bytes and escapes, as many as there are. `None` where a control
/// character, a wrong escape or the end of `s` comes before the double quote.
pub open spec fn text_len(s: Seq<u8>, i: int) -> Option<nat>
    decreases s.len() - i,
{
    if !(0 <= i < s.len()) {
        None
    } else if is_plain(s[i]) {
        match text_len(s, i + 1) {
            Some(n) => Some(n + 1),
            None => None,
        }
    } else if s[i] == BACKSLASH {
        match escape_len(s, i + 1) {
            Some(e) => match text_len(s, i + 1 + e) {
                Some(n) => Some(n + 1 + e),
                None => None,
            },
            None => None,
        }
    } else if s[i] == QUOTE {
        Some(0)
    } else {
        None
    }
}

/// The text literal that stands at `i`: the text between its double quotes,
/// taken as it is written, and the length of the literal.
pub open spec fn string_at(s: Seq<u8>, i: int) -> Option<(Seq<char>, nat)> {
    if 0 <= i < s.len() && s[i] == QUOTE {
        match text_len(s, i + 1) {
            Some(n) => Some((decode_utf8(s.subrange(i + 1, i + 1 + n)), n + 2)),
            None => None,
        }
    } else {
        None
    }
}

/// The truth value that stands at `i`, and the length of its word.
pub open spec fn bool_at(s: Seq<u8>, i: int) -> Option<(bool, nat)> {
    if has_word_any_case(s, i, "true"@) {
        Some((true, encode_utf8("true"@).len()))
    } else if has_word_any_case(s, i, "false"@) {
        Some((false, encode_utf8("false"@).len()))
    } else {
        None
    }
}

/// True of the ASCII digits.
pub open spec fn is_digit(b: u8) -> bool {
    0x30 <= b <= 0x39
}

/// True where a number may begin at `i`: with a digit, a sign or a dot, or
/// with `nan` or `inf` in upper or lower case.
pub open spec fn number_start(s: Seq<u8>, i: int) -> bool {
    0 <= i < s.len() && (is_digit(s[i]) || s[i] == 0x2b || s[i] == 0x2d || s[i] == 0x2e
        || has_word_any_case(s, i, "nan"@) || has_word_any_case(s, i, "inf"@))
}

/// The number that stands at `i`, by its decimal text, and the length of what
/// it is written with.
pub open spec fn number_at(s: Seq<u8>, i: int) -> Option<(Seq<char>, nat)> {
    if number_start(s, i) {
        match number_prefix(s.subrange(i, s.len() as int)) {
            Some((rest, text)) => if rest <= s.len() - i {
                Some((text, (s.len() - i - rest) as nat))
            } else {
                None
            },
            None => None,
        }
    } else {
        None
    }
}

/// The number of bytes from `i` on that may stand in the base64 text of a
/// payload.
pub open spec fn payload_len(s: Seq<u8>, i: int) -> nat
    decreases s.len() - i,
{
    if 0 <= i < s.len() && is_payload_byte(s[i]) {
        1 + payload_len(s, i + 1)
    } else {
        0
    }
}

/// The payload that the base64 text `text` stands for; the empty payload
/// where `text` is not valid base64.
pub open spec fn payload_of(text: Seq<u8>) -> Seq<u8> {
    match base64_payload(text) {
        Some(data) => data,
        None => Seq::empty(),
    }
}

/// The payload literal that stands at `i`, and its length: `binary!()` for
/// the empty payload, or a base64 text between `binary!(` and `)`.
pub open spec fn binary_at(s: Seq<u8>, i: int) -> Option<(Seq<u8>, nat)> {
    let opening = encode_utf8("binary!("@).len();
    let n = payload_len(s, i + opening);
    if has_word(s, i, "binary!()"@) {
        Some((Seq::empty(), encode_utf8("binary!()"@).len()))
    } else if has_word(s, i, "binary!("@) && n > 0 && i + opening + n < s.len() && s[i + opening
        + n] == CLOSE_PAREN {
        Some((payload_of(s.subrange(i + opening, i + opening + n)), opening + n + 1))
    } else {
        None
    }
}

/// The value that stands at `i`, with the whitespace before and behind it,
/// and the number of bytes that all of it takes.
pub open spec fn value_at(s: Seq<u8>, i: int) -> Option<(Datum, nat)>
    decreases rest_len(s, i), 3int,
{
    let lead = spaces(s, i);
    match bare_value_at(s, i + lead) {
        Some((v, n)) => Some((v, lead + n + spaces(s, i + lead + n))),
        None => None,
    }
}

/// The value that stands at `i`. The shapes are tried in this order: number,
/// truth value, text, list, dictionary, tuple, payload.
pub open spec fn bare_value_at(s: Seq<u8>, i: int) -> Option<(Datum, nat)>
    decreases rest_len(s, i), 2int,
{
    if let Some((text, n)) = number_at(s, i) {
        Some((Datum::Number(text), n))
    } else if let Some((truth, n)) = bool_at(s, i) {
        Some((Datum::Boolean(truth), n))
    } else if let Some((text, n)) = string_at(s, i) {
        Some((Datum::String(text), n))
    } else if let Some((items, n)) = list_at(s, i) {
        Some((Datum::List(items), n))
    } else if let Some((entries, n)) = dict_at(s, i) {
        Some((Datum::Dict(entries), n))
    } else if let Some((first, second, n)) = tuple_at(s, i) {
        Some((Datum::Tuple(Box::new(first), Box::new(second)), n))
    } else if let Some((data, n)) = binary_at(s, i) {
        Some((Datum::Binary(data), n))
    } else {
        None
    }
}

/// The list that stands at `i`: `[`, values parted by commas, `]`.
pub open spec fn list_at(s: Seq<u8>, i: int) -> Option<(Seq<Datum>, nat)>
    decreases rest_len(s, i), 1int,
{
    if 0 <= i < s.len() && s[i] == OPEN_BRACKET {
        let (items, n) = items_at(s, i + 1);
        if i + 1 + n < s.len() && s[i + 1 + n] == CLOSE_BRACKET {
            Some((items, n + 2))
        } else {
            None
        }
    } else {
        None
    }
}

/// The values parted by commas that stand at `i`, as many as there are, and
/// the number of bytes that they take.
pub open spec fn items_at(s: Seq<u8>, i: int) -> (Seq<Datum>, nat)
    decreases rest_len(s, i), 5int,
{
    match value_at(s, i) {
        Some((v, n)) => more_items_at(s, i + n, seq![v], n),
        None => (Seq::empty(), 0),
    }
}

/// The values that follow `items` from `i` on, each behind a comma; `taken`
/// counts the bytes that `items` took.
pub open spec fn more_items_at(s: Seq<u8>, i: int, items: Seq<Datum>, taken: nat) -> (
    Seq<Datum>,
    nat,
)
    decreases rest_len(s, i), 4int,
{
    if 0 <= i < s.len() && s[i] == COMMA {
        match value_at(s, i + 1) {
            Some((v, n)) => more_items_at(s, i + 1 + n, items.push(v), taken + 1 + n),
            None => (items, taken),
        }
    } else {
        (items, taken)
    }
}

/// The entry that stands at `i`: a text literal, a colon and a value, with
/// whitespace around each.
pub open spec fn entry_at(s: Seq<u8>, i: int) -> Option<(Seq<char>, Datum, nat)>
    decreases rest_len(s, i), 4int,
{
    let lead = spaces(s, i);
    match string_at(s, i + lead) {
        Some((key, k)) => {
            let gap = spaces(s, i + lead + k);
            let colon = i + lead + k + gap;
            if 0 <= colon < s.len() && s[colon] == COLON {
                match value_at(s, colon + 1) {
                    Some((v, n)) => Some((key, v, lead + k + gap + 1 + n)),
                    None => None,
                }
            } else {
                None
            }
        },
        None => None,
    }
}

/// The dictionary that stands at `i`: `{`, entries parted by commas, `}`.
/// Where a key comes again, its value takes the place of the earlier one.
pub open spec fn dict_at(s: Seq<u8>, i: int) -> Option<(Seq<(Seq<char>, Datum)>, nat)>
    decreases rest_len(s, i), 1int,
{
    if 0 <= i < s.len() && s[i] == OPEN_BRACE {
        let (entries, n) = entries_at(s, i + 1);
        if i + 1 + n < s.len() && s[i + 1 + n] == CLOSE_BRACE {
            Some((entries, n + 2))
        } else {
            None
        }
    } else {
        None
    }
}

/// The entries parted by commas that stand at `i`, as many as there are, and
/// the number of bytes that they take.
pub open spec fn entries_at(s: Seq<u8>, i: int) -> (Seq<(Seq<char>, Datum)>, nat)
    decreases rest_len(s, i), 6int,
{
    match entry_at(s, i) {
        Some((key, v, n)) => more_entries_at(s, i + n, seq![(key, v)], n),
        None => (Seq::empty(), 0),
    }
}

/// The entries that follow `entries` from `i` on, each behind a comma;
/// `taken` counts the bytes that `entries` took.
pub open spec fn more_entries_at(
    s: Seq<u8>,
    i: int,
    entries: Seq<(Seq<char>, Datum)>,
    taken: nat,
) -> (Seq<(Seq<char>, Datum)>, nat)
    decreases rest_len(s, i), 5int,
{
    if 0 <= i < s.len() && s[i] == COMMA {
        match entry_at(s, i + 1) {
            Some((key, v, n)) => more_entries_at(
                s,
                i + 1 + n,
                with_entry(entries, key, v),
                taken + 1 + n,
            ),
            None => (entries, taken),
        }
    } else {
        (entries, taken)
    }
}

/// The tuple that stands at `i`: `(`, a value, a comma, a value, `)`.
pub open spec fn tuple_at(s: Seq<u8>, i: int) -> Option<(Datum, Datum, nat)>
    decreases rest_len(s, i), 1int,
{
    if 0 <= i < s.len() && s[i] == OPEN_PAREN {
        match value_at(s, i + 1) {
            Some((first, a)) => {
                let comma = i + 1 + a;
                if comma < s.len() && s[comma] == COMMA {
                    match value_at(s, comma + 1) {
                        Some((second, b)) => {
                            let close = comma + 1 + b;
                            if close < s.len() && s[close] == CLOSE_PAREN {
                                Some((first, second, a + b + 3))
                            } else {
                                None
                            }
                        },
                        None => None,
                    }
                } else {
                    None
                }
            },
            None => None,
        }
    } else {
        None
    }
}

/// The value that the whole of `s` is the notation of; the absent value
/// where `s` is the notation of none.
pub open spec fn document(s: Seq<u8>) -> Datum {
    match value_at(s, 0) {
        Some((v, n)) => if n == s.len() {
            v
        } else {
            Datum::Null
        },
        None => Datum::Null,
    }
}

/// True where `s` is an envelope: `b:`, a base64 text, `:`.
pub open spec fn is_envelope(s: Seq<u8>) -> bool {
    s.len() >= 3 && s[0] == 0x62 && s[1] == COLON && s[s.len() - 1] == COLON
}

/// The value that the text with the bytes `s` denotes. An envelope denotes
/// what the text inside it denotes, and the absent value where its base64
/// text is not valid or does not hold a text in UTF-8.
pub open spec fn denoted(s: Seq<u8>) -> Datum {
    if is_envelope(s) {
        match base64_payload(s.subrange(2, s.len() - 1)) {
            Some(inner) => if valid_utf8(inner) {
                document(inner)
            } else {
                Datum::Null
            },
            None => Datum::Null,
        }
    } else {
        document(s)
    }
}

} // verus!
